use vstd::prelude::*;
use crate::domain::action::{Action, ActionKind, ActionResult, FileReplacement};
use crate::domain::snapshot::{spec_content_modified, spec_created, spec_permission_modified, texts, SnapshotManifest};
use crate::paths::{components, path_components, ComponentView, PathComponent};
use crate::shell::{shell_split, split_words, words_view};
use crate::text::{chars_of, starts_with, string_from_chars, string_from_range, trim_chars, trimmed};

verus! {

/// Why a recorded line was refused.
#[derive(Clone, Debug)]
pub enum RecorderError {
    /// `cd` with an unmatched quote.
    InvalidCdSyntax,
    /// `cd` without exactly one path.
    CdUsage,
    /// `export` without `=`.
    ExportUsage,
    /// The path is absolute or climbs above the project root.
    PathEscapesProject { path: String },
    /// A checkpoint changed a symbolic link, which a file patch cannot carry.
    SymlinkPatch { path: String },
}

/// The names of `stack` joined by `/`.
pub open spec fn join_names(stack: Seq<Seq<char>>) -> Seq<char>
    decreases stack.len(),
{
    if stack.len() == 0 {
        Seq::empty()
    } else if stack.len() == 1 {
        stack[0]
    } else {
        join_names(stack.drop_last()) + seq!['/'] + stack.last()
    }
}

/// The directory names reached from `stack` by walking `comps`: a name is entered, `.` stays,
/// `..` leaves one name (there must be one), and a root is refused.
pub open spec fn walk(stack: Seq<Seq<char>>, comps: Seq<ComponentView>) -> Option<Seq<Seq<char>>>
    decreases comps.len(),
{
    if comps.len() == 0 {
        Some(stack)
    } else {
        match comps[0] {
            ComponentView::Normal(s) => walk(stack.push(s), comps.drop_first()),
            ComponentView::CurDir => walk(stack, comps.drop_first()),
            ComponentView::ParentDir => if stack.len() == 0 {
                None
            } else {
                walk(stack.drop_last(), comps.drop_first())
            },
            ComponentView::RootDir => None,
        }
    }
}

/// The project-relative path that `requested`, given in the working directory `cwd`,
/// names: resolved lexically, refused when it is absolute or climbs above the root.
pub open spec fn spec_normalize_path(cwd: Seq<char>, requested: Seq<char>) -> Option<Seq<char>> {
    match walk(Seq::empty(), components(cwd) + components(requested)) {
        Some(stack) => Some(join_names(stack)),
        None => None,
    }
}

fn join_stack(stack: &Vec<Vec<char>>) -> (res: Vec<char>)
    ensures
        res@ == join_names(stack@.map_values(|v: Vec<char>| v@)),
{
    let ghost sv = stack@.map_values(|v: Vec<char>| v@);
    let mut out: Vec<char> = Vec::new();
    let mut i: usize = 0;
    while i < stack.len()
        invariant
            i <= stack@.len(),
            sv == stack@.map_values(|v: Vec<char>| v@),
            out@ == join_names(sv.take(i as int)),
        decreases stack.len() - i,
    {
        assert(sv.take(i + 1).drop_last() =~= sv.take(i as int));
        assert(sv.take(i + 1).last() == stack@[i as int]@);
        let ghost before = out@;
        if i > 0 {
            out.push('/');
        }
        let part = &stack[i];
        let mut k: usize = 0;
        let ghost base = out@;
        while k < part.len()
            invariant
                k <= part@.len(),
                out@ == base + part@.take(k as int),
            decreases part.len() - k,
        {
            out.push(part[k]);
            k += 1;
            assert(out@ =~= base + part@.take(k as int));
        }
        assert(part@.take(part@.len() as int) =~= part@);
        proof {
            if i == 0 {
                assert(sv.take(1).len() == 1);
                assert(out@ =~= join_names(sv.take(1)));
            } else {
                assert(out@ =~= before + seq!['/'] + part@);
            }
        }
        i += 1;
    }
    assert(sv.take(stack@.len() as int) =~= sv);
    out
}

/// The project-relative path that `requested`, given in the working directory `cwd`, names.
pub fn normalize_project_path(cwd: &str, requested: &str) -> (res: Result<String, RecorderError>)
    ensures
        match res {
            Ok(p) => spec_normalize_path(cwd@, requested@) == Some(p@),
            Err(e) => spec_normalize_path(cwd@, requested@) is None && (e matches RecorderError::PathEscapesProject {
                path,
            } && path@ == requested@),
        },
{
    let mut comps = path_components(cwd);
    let mut more = path_components(requested);
    let ghost all = comps@.map_values(|c: PathComponent| c@) + more@.map_values(|c: PathComponent| c@);
    assert(all == components(cwd@) + components(requested@));
    comps.append(&mut more);
    assert(comps@.map_values(|c: PathComponent| c@) =~= all);
    let mut stack: Vec<Vec<char>> = Vec::new();
    let mut i: usize = 0;
    let total = comps.len();
    assert(all.skip(0) =~= all);
    assert(stack@.map_values(|v: Vec<char>| v@) =~= Seq::<Seq<char>>::empty());
    while i < total
        invariant
            total == comps@.len(),
            all == comps@.map_values(|c: PathComponent| c@),
            all == components(cwd@) + components(requested@),
            i <= total,
            walk(Seq::empty(), all) == walk(stack@.map_values(|v: Vec<char>| v@), all.skip(i as int)),
        decreases total - i,
    {
        let c = &comps[i];
        assert(all[i as int] == c@);
        let ghost sv = stack@.map_values(|v: Vec<char>| v@);
        assert(all.skip(i as int)[0] == c@);
        assert(all.skip(i as int).drop_first() =~= all.skip(i + 1));
        match c {
            PathComponent::Normal(s) => {
                stack.push(chars_of(s.as_str()));
                assert(stack@.map_values(|v: Vec<char>| v@) =~= sv.push(s@));
            },
            PathComponent::CurDir => {},
            PathComponent::ParentDir => {
                if stack.len() == 0 {
                    assert(walk(sv, all.skip(i as int)) is None);
                    return Err(RecorderError::PathEscapesProject { path: requested.to_owned() });
                }
                stack.pop();
                assert(stack@.map_values(|v: Vec<char>| v@) =~= sv.drop_last());
            },
            PathComponent::RootDir => {
                assert(walk(sv, all.skip(i as int)) is None);
                return Err(RecorderError::PathEscapesProject { path: requested.to_owned() });
            },
        }
        i += 1;
    }
    assert(all.skip(total as int).len() == 0);
    let joined = join_stack(&stack);
    Ok(string_from_chars(&joined))
}

/// What a line typed into the recorder asks for.
#[derive(Clone, Debug)]
pub enum ReplCommand {
    Help,
    Quit,
    Status,
    Verify,
    Done,
    Checkpoint { note: String },
    Edit { path: String },
    Record { line: String },
}

/// `s` with every leading copy of `prefix` removed (`str::trim_start_matches`).
pub open spec fn strip_prefixes(s: Seq<char>, prefix: Seq<char>) -> Seq<char>
    decreases s.len(),
{
    if prefix.len() > 0 && starts_with(s, prefix) {
        strip_prefixes(s.skip(prefix.len() as int), prefix)
    } else {
        s
    }
}

/// What a typed line asks for: nothing for a blank line; else, on the trimmed line, one of
/// the colon commands, a checkpoint with its trimmed note (`manual checkpoint` when none),
/// an edit of the trimmed path after `:edit `, or a step to record.
pub open spec fn spec_repl_command(line: Seq<char>) -> Option<(int, Seq<char>)> {
    let t = trimmed(line);
    if t.len() == 0 {
        None
    } else if t == ":help"@ {
        Some((0, Seq::empty()))
    } else if t == ":quit"@ {
        Some((1, Seq::empty()))
    } else if t == ":status"@ {
        Some((2, Seq::empty()))
    } else if t == ":verify"@ {
        Some((3, Seq::empty()))
    } else if t == ":done"@ {
        Some((4, Seq::empty()))
    } else if starts_with(t, ":checkpoint"@) {
        let note = trimmed(t.skip(11));
        Some((5, if note.len() == 0 { "manual checkpoint"@ } else { note }))
    } else if starts_with(t, ":edit "@) {
        Some((6, trimmed(strip_prefixes(t, ":edit "@))))
    } else {
        Some((7, t))
    }
}

/// The command's kind (in the order of [`spec_repl_command`]) and its text.
pub open spec fn command_view(c: ReplCommand) -> (int, Seq<char>) {
    match c {
        ReplCommand::Help => (0, Seq::empty()),
        ReplCommand::Quit => (1, Seq::empty()),
        ReplCommand::Status => (2, Seq::empty()),
        ReplCommand::Verify => (3, Seq::empty()),
        ReplCommand::Done => (4, Seq::empty()),
        ReplCommand::Checkpoint { note } => (5, note@),
        ReplCommand::Edit { path } => (6, path@),
        ReplCommand::Record { line } => (7, line@),
    }
}

fn strip_prefix_copies(s: &Vec<char>, prefix: &Vec<char>) -> (res: Vec<char>)
    ensures
        res@ == strip_prefixes(s@, prefix@),
{
    let mut rest = s_from(s, 0);
    assert(s@.skip(0) =~= s@);
    while prefix.len() > 0 && crate::text::chars_start_with(&rest, prefix)
        invariant
            strip_prefixes(s@, prefix@) == strip_prefixes(rest@, prefix@),
        decreases rest@.len(),
    {
        rest = s_from(&rest, prefix.len());
    }
    rest
}

fn s_from(s: &Vec<char>, start: usize) -> (res: Vec<char>)
    requires
        start <= s@.len(),
    ensures
        res@ == s@.skip(start as int),
{
    let mut out: Vec<char> = Vec::new();
    let mut i = start;
    while i < s.len()
        invariant
            start <= i <= s@.len(),
            out@ == s@.subrange(start as int, i as int),
        decreases s.len() - i,
    {
        out.push(s[i]);
        i += 1;
        assert(out@ =~= s@.subrange(start as int, i as int));
    }
    assert(out@ =~= s@.skip(start as int));
    out
}

fn chars_are(a: &Vec<char>, lit: &str) -> (res: bool)
    ensures
        res == (a@ == lit@),
{
    crate::text::chars_eq(a, &chars_of(lit))
}

/// Each colon command, once the line is trimmed, is its own command; a blank line asks for
/// nothing; a line that does not start with `:` is a step to record, as typed but trimmed.
pub proof fn repl_lines_name_their_commands(line: Seq<char>)
    ensures
        trimmed(line) == ":help"@ ==> spec_repl_command(line) == Some(command_view(ReplCommand::Help)),
        trimmed(line) == ":quit"@ ==> spec_repl_command(line) == Some(command_view(ReplCommand::Quit)),
        trimmed(line) == ":status"@ ==> spec_repl_command(line) == Some(command_view(ReplCommand::Status)),
        trimmed(line) == ":verify"@ ==> spec_repl_command(line) == Some(command_view(ReplCommand::Verify)),
        trimmed(line) == ":done"@ ==> spec_repl_command(line) == Some(command_view(ReplCommand::Done)),
        trimmed(line).len() == 0 <==> spec_repl_command(line) is None,
        trimmed(line).len() > 0 && trimmed(line)[0] != ':' ==> spec_repl_command(line) == Some((7int, trimmed(line))),
        starts_with(trimmed(line), ":checkpoint"@) ==> (spec_repl_command(line) matches Some(c) && c.0 == 5),
        starts_with(trimmed(line), ":edit "@) ==> (spec_repl_command(line) matches Some(c) && c.0 == 6),
{
    reveal_strlit(":help");
    reveal_strlit(":quit");
    reveal_strlit(":status");
    reveal_strlit(":verify");
    reveal_strlit(":done");
    reveal_strlit(":checkpoint");
    reveal_strlit(":edit ");
    let t = trimmed(line);
    assert(":help"@.len() == 5 && ":quit"@.len() == 5 && ":status"@.len() == 7 && ":verify"@.len() == 7 && ":done"@.len() == 5);
    assert(":help"@[1] == 'h' && ":quit"@[1] == 'q' && ":status"@[1] == 's' && ":verify"@[1] == 'v' && ":done"@[1] == 'd');
    assert(":checkpoint"@.len() == 11 && ":edit "@.len() == 6 && ":checkpoint"@[1] == 'c' && ":edit "@[1] == 'e');
    if starts_with(t, ":checkpoint"@) {
        assert(t.subrange(0, 11)[1] == 'c');
        assert(t.len() >= 11);
    }
    if starts_with(t, ":edit "@) {
        assert(t.subrange(0, 6)[1] == 'e');
        assert(t[1] == 'e');
        assert(!starts_with(t, ":checkpoint"@)) by {
            if starts_with(t, ":checkpoint"@) {
                assert(t.subrange(0, 11)[1] == t[1]);
            }
        }
    }
    if t.len() > 0 && t[0] != ':' {
        assert(":help"@[0] == ':' && ":quit"@[0] == ':' && ":status"@[0] == ':' && ":verify"@[0] == ':' && ":done"@[0] == ':');
        assert(t != ":help"@ && t != ":quit"@ && t != ":status"@ && t != ":verify"@ && t != ":done"@);
        if starts_with(t, ":checkpoint"@) {
            assert(t.subrange(0, 11)[0] == ":checkpoint"@[0]);
        }
        if starts_with(t, ":edit "@) {
            assert(t.subrange(0, 6)[0] == ":edit "@[0]);
        }
    }
}

/// What a typed line asks for.
pub fn parse_repl_line(line: &str) -> (res: Option<ReplCommand>)
    ensures
        match res {
            Some(c) => spec_repl_command(line@) == Some(command_view(c)),
            None => spec_repl_command(line@) is None,
        },
        trimmed(line@) == ":help"@ ==> res matches Some(ReplCommand::Help),
        trimmed(line@) == ":quit"@ ==> res matches Some(ReplCommand::Quit),
        trimmed(line@) == ":status"@ ==> res matches Some(ReplCommand::Status),
        trimmed(line@) == ":verify"@ ==> res matches Some(ReplCommand::Verify),
        trimmed(line@) == ":done"@ ==> res matches Some(ReplCommand::Done),
        res is None <==> trimmed(line@).len() == 0,
        trimmed(line@).len() > 0 && trimmed(line@)[0] != ':' ==> (res matches Some(ReplCommand::Record { line: l })
            && l@ == trimmed(line@)),
        starts_with(trimmed(line@), ":checkpoint"@) ==> res matches Some(ReplCommand::Checkpoint { .. }),
        starts_with(trimmed(line@), ":edit "@) ==> res matches Some(ReplCommand::Edit { .. }),
{
    proof {
        repl_lines_name_their_commands(line@);
    }
    let t = trim_chars(&chars_of(line));
    if t.len() == 0 {
        return None;
    }
    if chars_are(&t, ":help") {
        return Some(ReplCommand::Help);
    }
    if chars_are(&t, ":quit") {
        return Some(ReplCommand::Quit);
    }
    if chars_are(&t, ":status") {
        return Some(ReplCommand::Status);
    }
    if chars_are(&t, ":verify") {
        return Some(ReplCommand::Verify);
    }
    if chars_are(&t, ":done") {
        return Some(ReplCommand::Done);
    }
    let checkpoint = chars_of(":checkpoint");
    if crate::text::chars_start_with(&t, &checkpoint) {
        proof {
            reveal_strlit(":checkpoint");
        }
        let note = trim_chars(&s_from(&t, 11));
        if note.len() == 0 {
            return Some(ReplCommand::Checkpoint { note: String::from_str("manual checkpoint") });
        }
        return Some(ReplCommand::Checkpoint { note: string_from_chars(&note) });
    }
    let edit = chars_of(":edit ");
    if crate::text::chars_start_with(&t, &edit) {
        let path = trim_chars(&strip_prefix_copies(&t, &edit));
        return Some(ReplCommand::Edit { path: string_from_chars(&path) });
    }
    Some(ReplCommand::Record { line: string_from_chars(&t) })
}

/// The position of the first `=` in `s`.
pub open spec fn first_equals(s: Seq<char>) -> int {
    choose|k: int| 0 <= k < s.len() && s[k] == '=' && forall|j: int| 0 <= j < k ==> s[j] != '='
}

/// A recorded step's kind as (kind, first text, second text): 0 a shell command, 1 a
/// directory change, 2 a variable set to a value, 3 a variable unset, 4 a file patch.
pub open spec fn kind_view(k: ActionKind) -> (int, Seq<char>, Seq<char>) {
    match k {
        ActionKind::ShellCommand { command } => (0, command@, Seq::empty()),
        ActionKind::ChangeDirectory { path } => (1, path@, Seq::empty()),
        ActionKind::SetEnvironment { key, value } => (2, key@, value@),
        ActionKind::UnsetEnvironment { key } => (3, key@, Seq::empty()),
        ActionKind::FilePatch { files } => (4, Seq::empty(), Seq::empty()),
    }
}

/// The step that a recorded line stands for in the working directory `cwd`: `cd <path>`
/// (split like a shell, exactly one path, resolved in `cwd`), `export KEY=value` (the key
/// trimmed, the value as typed), `unset KEY` (trimmed), or else a shell command. Errors:
/// 0 an unmatched quote after `cd`, 1 not one path after `cd`, 2 no `=` after `export`,
/// 3 a `cd` target that leaves the project.
pub open spec fn spec_parse_action(line: Seq<char>, cwd: Seq<char>) -> Result<(int, Seq<char>, Seq<char>), int> {
    if line == "cd"@ || starts_with(line, "cd "@) {
        match shell_split(line) {
            None => Err(0),
            Some(words) => if words.len() != 2 {
                Err(1)
            } else {
                match spec_normalize_path(cwd, words[1]) {
                    None => Err(3),
                    Some(p) => Ok((1, p, Seq::empty())),
                }
            },
        }
    } else if starts_with(line, "export "@) {
        let rest = line.skip(7);
        if !rest.contains('=') {
            Err(2)
        } else {
            let k = first_equals(rest);
            Ok((2, trimmed(rest.take(k)), rest.skip(k + 1)))
        }
    } else if starts_with(line, "unset "@) {
        Ok((3, trimmed(line.skip(6)), Seq::empty()))
    } else {
        Ok((0, line, Seq::empty()))
    }
}

/// The number of a [`RecorderError`] as [`spec_parse_action`] counts them.
pub open spec fn error_code(e: RecorderError) -> int {
    match e {
        RecorderError::InvalidCdSyntax => 0,
        RecorderError::CdUsage => 1,
        RecorderError::ExportUsage => 2,
        RecorderError::PathEscapesProject { path } => 3,
        RecorderError::SymlinkPatch { path } => 4,
    }
}

/// The step that a recorded line stands for in the working directory `cwd`.
pub fn parse_action(line: &str, cwd: &str) -> (res: Result<ActionKind, RecorderError>)
    ensures
        match res {
            Ok(k) => spec_parse_action(line@, cwd@) == Ok::<(int, Seq<char>, Seq<char>), int>(kind_view(k)),
            Err(e) => spec_parse_action(line@, cwd@) == Err::<(int, Seq<char>, Seq<char>), int>(error_code(e)),
        },
{
    let chars = chars_of(line);
    let cd_prefix = chars_of("cd ");
    if chars_are(&chars, "cd") || crate::text::chars_start_with(&chars, &cd_prefix) {
        let words = match split_words(line) {
            None => {
                return Err(RecorderError::InvalidCdSyntax);
            },
            Some(w) => w,
        };
        if words.len() != 2 {
            return Err(RecorderError::CdUsage);
        }
        assert(words_view(words@)[1] == words@[1]@);
        return match normalize_project_path(cwd, words[1].as_str()) {
            Ok(p) => Ok(ActionKind::ChangeDirectory { path: p }),
            Err(e) => Err(e),
        };
    }
    let export_prefix = chars_of("export ");
    if crate::text::chars_start_with(&chars, &export_prefix) {
        proof {
            reveal_strlit("export ");
        }
        let rest = s_from(&chars, 7);
        let mut k: usize = 0;
        while k < rest.len() && rest[k] != '='
            invariant
                k <= rest@.len(),
                forall|j: int| 0 <= j < k ==> rest@[j] != '=',
            decreases rest.len() - k,
        {
            k += 1;
        }
        if k == rest.len() {
            assert(!rest@.contains('='));
            return Err(RecorderError::ExportUsage);
        }
        proof {
            assert(rest@.contains('='));
            let f = first_equals(rest@);
            assert(0 <= k < rest@.len() && rest@[k as int] == '=' && forall|j: int| 0 <= j < k ==> rest@[j] != '=');
            if f < k {
                assert(rest@[f] != '=');
            }
            if f > k {
                assert(rest@[k as int] != '=');
            }
            assert(f == k);
        }
        let head = string_from_range(&rest, 0, k);
        assert(rest@.subrange(0, k as int) =~= rest@.take(k as int));
        let key = trim_chars(&chars_of(head.as_str()));
        return Ok(ActionKind::SetEnvironment { key: string_from_chars(&key), value: string_from_range(&rest, k + 1, rest.len()) });
    }
    let unset_prefix = chars_of("unset ");
    if crate::text::chars_start_with(&chars, &unset_prefix) {
        proof {
            reveal_strlit("unset ");
        }
        let key = trim_chars(&s_from(&chars, 6));
        return Ok(ActionKind::UnsetEnvironment { key: string_from_chars(&key) });
    }
    Ok(ActionKind::ShellCommand { command: line.to_owned() })
}

/// The id for a new action: one more than the largest id so far (1 for none).
pub fn next_action_id(actions: &Vec<Action>) -> (res: u64)
    requires
        forall|i: int| 0 <= i < actions@.len() ==> #[trigger] actions@[i].id < u64::MAX,
    ensures
        forall|i: int| 0 <= i < actions@.len() ==> #[trigger] actions@[i].id < res,
        res == 1 || exists|i: int| 0 <= i < actions@.len() && #[trigger] actions@[i].id + 1 == res,
{
    let mut max: u64 = 0;
    let mut found = false;
    let mut i: usize = 0;
    while i < actions.len()
        invariant
            i <= actions@.len(),
            forall|j: int| 0 <= j < actions@.len() ==> #[trigger] actions@[j].id < u64::MAX,
            forall|j: int| 0 <= j < i ==> #[trigger] actions@[j].id <= max,
            found ==> exists|j: int| 0 <= j < i && #[trigger] actions@[j].id == max,
            !found ==> max == 0,
        decreases actions.len() - i,
    {
        if actions[i].id > max || !found {
            if actions[i].id >= max {
                max = actions[i].id;
            }
            found = true;
        }
        i += 1;
    }
    if !found {
        return 1;
    }
    max + 1
}

/// How a working directory is shown: `/` for the project root, else `/` and the path.
pub fn display_cwd(cwd: &str) -> (res: String)
    ensures
        res@ == seq!['/'] + cwd@,
{
    let mut out: Vec<char> = Vec::new();
    out.push('/');
    let chars = chars_of(cwd);
    let mut k: usize = 0;
    while k < chars.len()
        invariant
            k <= chars@.len(),
            out@ == seq!['/'] + chars@.take(k as int),
        decreases chars.len() - k,
    {
        out.push(chars[k]);
        k += 1;
        assert(out@ =~= seq!['/'] + chars@.take(k as int));
    }
    assert(chars@.take(chars@.len() as int) =~= chars@);
    string_from_chars(&out)
}

/// The action that records file changes made outside the shell (an editor, or a
/// checkpoint): a replayable file patch with id and position `id`, whose result carries the
/// snapshots' hashes and the change between them.
pub fn external_patch_action(
    id: u64,
    cwd_before: String,
    files: Vec<FileReplacement>,
    note: Option<String>,
    before: &SnapshotManifest,
    after: &SnapshotManifest,
    exit_code: Option<i32>,
    duration_ms: u64,
) -> (res: Action)
    requires
        after.wf(),
    ensures
        res.id == id,
        res.original_order == id,
        res.cwd_before == cwd_before,
        res.kind == (ActionKind::FilePatch { files }),
        res.replayable,
        res.note == note,
        res.result matches Some(r) && {
            &&& r.exit_code == exit_code
            &&& r.duration_ms == duration_ms
            &&& r.stdout@.len() == 0
            &&& r.stderr@.len() == 0
            &&& r.stdout_artifact is None
            &&& r.stderr_artifact is None
            &&& !r.timed_out
            &&& !r.cancelled
            &&& r.before_snapshot_hash@ == before.root_hash@
            &&& r.after_snapshot_hash@ == after.root_hash@
            &&& texts(r.delta.created@) == spec_created(before.files@, after.files@)
            &&& texts(r.delta.deleted@) == spec_created(after.files@, before.files@)
            &&& texts(r.delta.content_modified@) == spec_content_modified(before.files@, after.files@)
            &&& texts(r.delta.permission_modified@) == spec_permission_modified(before.files@, after.files@)
        },
{
    let delta = before.diff(after);
    Action {
        id,
        original_order: id,
        cwd_before,
        kind: ActionKind::FilePatch { files },
        replayable: true,
        note,
        result: Some(ActionResult {
            exit_code,
            duration_ms,
            stdout: String::new(),
            stderr: String::new(),
            stdout_artifact: None,
            stderr_artifact: None,
            timed_out: false,
            cancelled: false,
            before_snapshot_hash: before.root_hash.clone(),
            after_snapshot_hash: after.root_hash.clone(),
            delta,
        }),
    }
}

} // verus!
