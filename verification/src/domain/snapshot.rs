use vstd::prelude::*;
use crate::digest::{
    optional_text, len_prefixed, push_bytes, push_len_prefixed, push_u32_le, push_u64_le,
    sha256_hex, sha256_hex_string, u32_le, u64_le,
};
use crate::paths::{ascending_paths, components, path_components, path_lt, ComponentView, PathComponent};
use crate::text::{copy_opt_string, opt_text_eq, opt_view, str_is};

verus! {

/// The kind of a filesystem entry in a snapshot.
#[derive(Clone, Copy, Debug, PartialEq, Eq, Structural)]
pub enum FileType {
    Regular,
    Directory,
    Symlink,
}

/// What a snapshot records of one project-relative entry.
#[derive(Clone, Debug)]
pub struct FileState {
    pub path: String,
    pub file_type: FileType,
    /// Hex SHA-256 of a regular file's bytes or of a symlink's target text.
    pub sha256: Option<String>,
    pub size: u64,
    pub unix_mode: Option<u32>,
    pub symlink_target: Option<String>,
}

/// A project snapshot: entries keyed by their relative path, and the hash over them.
#[derive(Clone, Debug)]
pub struct SnapshotManifest {
    pub root_hash: String,
    /// Entries in path order; no path occurs twice.
    pub files: Vec<FileState>,
}

/// How a later snapshot differs from an earlier one.
#[derive(Clone, Debug, Default)]
pub struct SnapshotDelta {
    pub created: Vec<String>,
    pub deleted: Vec<String>,
    pub content_modified: Vec<String>,
    pub permission_modified: Vec<String>,
}

/// Whether some entry of `files` has path `p`.
pub open spec fn has_path(files: Seq<FileState>, p: Seq<char>) -> bool {
    exists|i: int| 0 <= i < files.len() && #[trigger] files[i].path@ == p
}

/// The entry of `files` with path `p` (meaningful when [`has_path`] holds).
pub open spec fn entry_at(files: Seq<FileState>, p: Seq<char>) -> FileState {
    files[choose|i: int| 0 <= i < files.len() && #[trigger] files[i].path@ == p]
}

/// No path occurs twice.
pub open spec fn unique_paths(files: Seq<FileState>) -> bool {
    forall|i: int, j: int|
        0 <= i < files.len() && 0 <= j < files.len() && i != j ==> #[trigger] files[i].path@
            != #[trigger] files[j].path@
}

/// Two entries differ in content: kind, digest, size or symlink target.
pub open spec fn content_differs(a: FileState, b: FileState) -> bool {
    ||| a.file_type != b.file_type
    ||| opt_view(a.sha256) != opt_view(b.sha256)
    ||| a.size != b.size
    ||| opt_view(a.symlink_target) != opt_view(b.symlink_target)
}

/// Paths of `after` that `before` lacks, in `after`'s order.
pub open spec fn spec_created(before: Seq<FileState>, after: Seq<FileState>) -> Seq<Seq<char>> {
    after.filter_map(|f: FileState| if !has_path(before, f.path@) { Some(f.path@) } else { None })
}

/// Paths of `before` whose entry in `after` has different content, in `before`'s order.
pub open spec fn spec_content_modified(before: Seq<FileState>, after: Seq<FileState>) -> Seq<Seq<char>> {
    before.filter_map(
        |f: FileState|
            if has_path(after, f.path@) && content_differs(f, entry_at(after, f.path@)) {
                Some(f.path@)
            } else {
                None
            },
    )
}

/// Paths of `before` whose entry in `after` has a different Unix mode, in `before`'s order.
pub open spec fn spec_permission_modified(before: Seq<FileState>, after: Seq<FileState>) -> Seq<Seq<char>> {
    before.filter_map(
        |f: FileState|
            if has_path(after, f.path@) && f.unix_mode != entry_at(after, f.path@).unix_mode {
                Some(f.path@)
            } else {
                None
            },
    )
}

/// The text of each string in `v`.
pub open spec fn texts(v: Seq<String>) -> Seq<Seq<char>> {
    v.map_values(|s: String| s@)
}

/// The entries come in path order, as an ordered map by path keeps them.
pub open spec fn sorted_by_path(files: Seq<FileState>) -> bool {
    forall|i: int, j: int| 0 <= i < j < files.len() ==> path_lt(#[trigger] files[i].path@, #[trigger] files[j].path@)
}

/// Keeping, in order, the path of each entry that `f` keeps (and nothing else) leaves the
/// paths in path order when the entries were.
proof fn lemma_kept_paths_ascending(files: Seq<FileState>, f: spec_fn(FileState) -> Option<Seq<char>>)
    requires
        sorted_by_path(files),
        forall|x: FileState| #[trigger] f(x) is Some ==> f(x)->0 == x.path@,
    ensures
        ascending_paths(files.filter_map(f)),
    decreases files.len(),
{
    if files.len() > 0 {
        let rest = files.drop_last();
        assert(sorted_by_path(rest)) by {
            assert forall|i: int, j: int| 0 <= i < j < rest.len() implies path_lt(#[trigger] rest[i].path@, #[trigger] rest[j].path@) by {
                assert(rest[i] == files[i] && rest[j] == files[j]);
            }
        }
        lemma_kept_paths_ascending(rest, f);
        let last = files.last();
        match f(last) {
            Some(p) => {
                let out = files.filter_map(f);
                assert(out == rest.filter_map(f).push(p));
                assert forall|i: int, j: int| 0 <= i < j < out.len() implies path_lt(#[trigger] out[i], #[trigger] out[j]) by {
                    if j == out.len() - 1 {
                        let e = out[i];
                        assert(rest.filter_map(f)[i] == e);
                        assert(rest.filter_map(f).contains(e));
                        rest.lemma_filter_map_contains(f, e);
                        let t = choose|t: FileState| #[trigger] rest.contains(t) && f(t) == Some(e);
                        let k = choose|k: int| 0 <= k < rest.len() && rest[k] == t;
                        assert(files[k] == t);
                        assert(path_lt(files[k].path@, files[files.len() - 1].path@));
                    } else {
                        assert(out[i] == rest.filter_map(f)[i] && out[j] == rest.filter_map(f)[j]);
                    }
                }
            },
            None => {
                assert(files.filter_map(f) == rest.filter_map(f));
            },
        }
    }
}

impl SnapshotManifest {
    /// Entries carry distinct paths and come in path order, as in a map ordered by path.
    pub open spec fn wf(&self) -> bool {
        unique_paths(self.files@) && sorted_by_path(self.files@)
    }

    /// Entries come in path order.
    pub open spec fn sorted(&self) -> bool {
        sorted_by_path(self.files@)
    }

    /// What changed from `self` to `after`.
    pub fn diff(&self, after: &Self) -> (delta: SnapshotDelta)
        requires
            after.wf(),
        ensures
            texts(delta.created@) == spec_created(self.files@, after.files@),
            texts(delta.deleted@) == spec_created(after.files@, self.files@),
            texts(delta.content_modified@) == spec_content_modified(self.files@, after.files@),
            texts(delta.permission_modified@) == spec_permission_modified(self.files@, after.files@),
            after.sorted() ==> ascending_paths(texts(delta.created@)),
            self.sorted() ==> ascending_paths(texts(delta.deleted@)),
            self.sorted() ==> ascending_paths(texts(delta.content_modified@)),
            self.sorted() ==> ascending_paths(texts(delta.permission_modified@)),
    {
        let created = only_in_first(&after.files, &self.files);
        let deleted = only_in_first(&self.files, &after.files);
        let ghost bf = self.files@;
        let ghost af = after.files@;
        let ghost fc = |f: FileState|
            if has_path(af, f.path@) && content_differs(f, entry_at(af, f.path@)) {
                Some(f.path@)
            } else {
                None
            };
        let ghost fp = |f: FileState|
            if has_path(af, f.path@) && f.unix_mode != entry_at(af, f.path@).unix_mode {
                Some(f.path@)
            } else {
                None
            };
        let mut content_modified: Vec<String> = Vec::new();
        let mut permission_modified: Vec<String> = Vec::new();
        let mut i: usize = 0;
        proof {
            assert(bf.take(0).filter_map(fc) =~= Seq::<Seq<char>>::empty());
            assert(bf.take(0).filter_map(fp) =~= Seq::<Seq<char>>::empty());
        }
        while i < self.files.len()
            invariant
                i <= bf.len(),
                bf == self.files@,
                af == after.files@,
                unique_paths(af),
                fc == (|f: FileState|
                    if has_path(af, f.path@) && content_differs(f, entry_at(af, f.path@)) {
                        Some(f.path@)
                    } else {
                        None
                    }),
                fp == (|f: FileState|
                    if has_path(af, f.path@) && f.unix_mode != entry_at(af, f.path@).unix_mode {
                        Some(f.path@)
                    } else {
                        None
                    }),
                texts(content_modified@) == bf.take(i as int).filter_map(fc),
                texts(permission_modified@) == bf.take(i as int).filter_map(fp),
            decreases self.files.len() - i,
        {
            proof {
                bf.lemma_filter_map_take_succ(fc, i as int);
                bf.lemma_filter_map_take_succ(fp, i as int);
            }
            let before = &self.files[i];
            match find_path(&after.files, &before.path) {
                Some(j) => {
                    let current = &after.files[j];
                    proof {
                        lemma_entry_at(af, j as int);
                    }
                    if before.file_type != current.file_type || !opt_text_eq(&before.sha256, &current.sha256)
                        || before.size != current.size
                        || !opt_text_eq(&before.symlink_target, &current.symlink_target)
                    {
                        content_modified.push(before.path.clone());
                    }
                    if before.unix_mode != current.unix_mode {
                        permission_modified.push(before.path.clone());
                    }
                },
                None => {},
            }
            proof {
                assert(texts(content_modified@) =~= bf.take(i + 1).filter_map(fc));
                assert(texts(permission_modified@) =~= bf.take(i + 1).filter_map(fp));
            }
            i += 1;
        }
        proof {
            assert(bf.take(bf.len() as int) =~= bf);
            let fcr = |f: FileState| if !has_path(bf, f.path@) { Some(f.path@) } else { None };
            let fdl = |f: FileState| if !has_path(af, f.path@) { Some(f.path@) } else { None };
            assert(spec_created(bf, af) == af.filter_map(fcr));
            assert(spec_created(af, bf) == bf.filter_map(fdl));
            if after.sorted() {
                lemma_kept_paths_ascending(af, fcr);
            }
            if self.sorted() {
                lemma_kept_paths_ascending(bf, fdl);
                lemma_kept_paths_ascending(bf, fc);
                lemma_kept_paths_ascending(bf, fp);
            }
        }
        SnapshotDelta { created, deleted, content_modified, permission_modified }
    }

    /// Whether both snapshots hold the same paths with the same content (modes aside).
    pub fn has_same_content(&self, other: &Self) -> (res: bool)
        requires
            other.wf(),
        ensures
            res == spec_same_content(self.files@, other.files@),
    {
        if self.files.len() != other.files.len() {
            return false;
        }
        let mut i: usize = 0;
        while i < self.files.len()
            invariant
                i <= self.files@.len(),
                self.files@.len() == other.files@.len(),
                unique_paths(other.files@),
                forall|k: int| 0 <= k < i ==> #[trigger] same_entry_in(self.files@[k], other.files@),
            decreases self.files.len() - i,
        {
            let state = &self.files[i];
            match find_path(&other.files, &state.path) {
                Some(j) => {
                    let candidate = &other.files[j];
                    proof {
                        lemma_entry_at(other.files@, j as int);
                    }
                    if !(state.file_type == candidate.file_type
                        && opt_text_eq(&state.sha256, &candidate.sha256)
                        && state.size == candidate.size
                        && opt_text_eq(&state.symlink_target, &candidate.symlink_target))
                    {
                        assert(!same_entry_in(self.files@[i as int], other.files@));
                        return false;
                    }
                },
                None => {
                    assert(!same_entry_in(self.files@[i as int], other.files@));
                    return false;
                },
            }
            i += 1;
        }
        true
    }
}

/// `f`'s path is in `files` with the same content.
pub open spec fn same_entry_in(f: FileState, files: Seq<FileState>) -> bool {
    has_path(files, f.path@) && !content_differs(f, entry_at(files, f.path@))
}

/// Same number of entries, and every entry of `a` is in `b` with the same content.
pub open spec fn spec_same_content(a: Seq<FileState>, b: Seq<FileState>) -> bool {
    a.len() == b.len() && forall|i: int| 0 <= i < a.len() ==> #[trigger] same_entry_in(a[i], b)
}

pub(crate) proof fn lemma_entry_at(files: Seq<FileState>, j: int)
    requires
        unique_paths(files),
        0 <= j < files.len(),
    ensures
        has_path(files, files[j].path@),
        entry_at(files, files[j].path@) == files[j],
{
    let p = files[j].path@;
    assert(has_path(files, p));
    let k = choose|i: int| 0 <= i < files.len() && #[trigger] files[i].path@ == p;
    assert(k == j);
}

/// The index of the entry of `files` with the path `p`, if any.
pub(crate) fn find_path(files: &Vec<FileState>, p: &String) -> (res: Option<usize>)
    ensures
        match res {
            Some(j) => j < files@.len() && files@[j as int].path@ == p@,
            None => !has_path(files@, p@),
        },
{
    let mut j: usize = 0;
    while j < files.len()
        invariant
            j <= files@.len(),
            forall|k: int| 0 <= k < j ==> #[trigger] files@[k].path@ != p@,
        decreases files.len() - j,
    {
        if files[j].path == *p {
            return Some(j);
        }
        j += 1;
    }
    None
}

/// Paths of `first` that `second` lacks, in `first`'s order.
fn only_in_first(first: &Vec<FileState>, second: &Vec<FileState>) -> (res: Vec<String>)
    ensures
        texts(res@) == spec_created(second@, first@),
{
    let ghost f = |fs: FileState| if !has_path(second@, fs.path@) { Some(fs.path@) } else { None };
    let mut res: Vec<String> = Vec::new();
    let mut i: usize = 0;
    proof {
        assert(first@.take(0).filter_map(f) =~= Seq::<Seq<char>>::empty());
    }
    while i < first.len()
        invariant
            i <= first@.len(),
            f == (|fs: FileState| if !has_path(second@, fs.path@) { Some(fs.path@) } else { None }),
            texts(res@) == first@.take(i as int).filter_map(f),
        decreases first.len() - i,
    {
        proof {
            first@.lemma_filter_map_take_succ(f, i as int);
        }
        if find_path(second, &first[i].path).is_none() {
            res.push(first[i].path.clone());
        }
        proof {
            assert(texts(res@) =~= first@.take(i + 1).filter_map(f));
        }
        i += 1;
    }
    proof {
        assert(first@.take(first@.len() as int) =~= first@);
    }
    res
}


/// Whether the first component of the relative `path` is `.git`, `.fixtrace`, or `target`
/// (the last unless target directories are included).
pub open spec fn spec_is_excluded(path: Seq<char>, include_target: bool) -> bool {
    let cs = components(path);
    cs.len() > 0 && match cs[0] {
        ComponentView::Normal(first) => {
            ||| first == ".git"@
            ||| first == ".fixtrace"@
            ||| (!include_target && first == "target"@)
        },
        _ => false,
    }
}

/// Whether a project-relative path lies in a directory that snapshots and copies skip.
pub fn is_excluded_relative(path: &str, include_target: bool) -> (res: bool)
    ensures
        res == spec_is_excluded(path@, include_target),
{
    let cs = path_components(path);
    proof {
        assert(cs@.len() == components(path@).len());
    }
    if cs.len() == 0 {
        return false;
    }
    proof {
        assert(cs@.map_values(|c: PathComponent| c@)[0] == cs@[0]@);
    }
    match &cs[0] {
        PathComponent::Normal(first) => {
            str_is(first.as_str(), ".git") || str_is(first.as_str(), ".fixtrace") || (!include_target
                && str_is(first.as_str(), "target"))
        },
        _ => false,
    }
}

/// The byte that stands for a file type in the snapshot hash.
pub open spec fn file_type_byte(t: FileType) -> u8 {
    match t {
        FileType::Regular => 1,
        FileType::Directory => 2,
        FileType::Symlink => 3,
    }
}

/// A Unix mode in the snapshot hash: 0, or 1 followed by the mode's four little-endian bytes.
pub open spec fn optional_mode(mode: Option<u32>) -> Seq<u8> {
    match mode {
        Some(m) => seq![1u8] + u32_le(m),
        None => seq![0u8],
    }
}

/// The bytes that one entry adds to the snapshot hash.
pub open spec fn entry_encoding(f: FileState) -> Seq<u8> {
    len_prefixed(vstd::utf8::encode_utf8(f.path@)) + seq![file_type_byte(f.file_type)]
        + optional_text(opt_view(f.sha256)) + u64_le(f.size) + optional_mode(f.unix_mode)
        + optional_text(opt_view(f.symlink_target))
}

/// The bytes hashed for a snapshot: a version tag, then each entry in order.
pub open spec fn manifest_encoding(files: Seq<FileState>) -> Seq<u8>
    decreases files.len(),
{
    if files.len() == 0 {
        vstd::utf8::encode_utf8("fixtrace-snapshot-v1"@) + seq![0u8]
    } else {
        manifest_encoding(files.drop_last()) + entry_encoding(files.last())
    }
}

fn push_optional_text(out: &mut Vec<u8>, text: &Option<String>)
    ensures
        final(out)@ == old(out)@ + optional_text(opt_view(*text)),
{
    match text {
        Some(t) => {
            out.push(1u8);
            let ghost mid = out@;
            push_len_prefixed(out, t.as_str());
            assert(out@ =~= old(out)@ + optional_text(opt_view(*text)));
        },
        None => {
            out.push(0u8);
            assert(out@ =~= old(out)@ + optional_text(opt_view(*text)));
        },
    }
}

fn push_entry(out: &mut Vec<u8>, f: &FileState)
    ensures
        final(out)@ == old(out)@ + entry_encoding(*f),
{
    push_len_prefixed(out, f.path.as_str());
    let b: u8 = match f.file_type {
        FileType::Regular => 1,
        FileType::Directory => 2,
        FileType::Symlink => 3,
    };
    out.push(b);
    push_optional_text(out, &f.sha256);
    push_u64_le(out, f.size);
    match f.unix_mode {
        Some(mode) => {
            out.push(1u8);
            push_u32_le(out, mode);
        },
        None => {
            out.push(0u8);
        },
    }
    push_optional_text(out, &f.symlink_target);
    assert(out@ =~= old(out)@ + entry_encoding(*f));
}

/// The snapshot hash of `files`: hex SHA-256 over [`manifest_encoding`].
pub fn hash_manifest(files: &Vec<FileState>) -> (res: String)
    ensures
        res@ == sha256_hex(manifest_encoding(files@)),
{
    let mut out: Vec<u8> = Vec::new();
    push_bytes(&mut out, "fixtrace-snapshot-v1".as_bytes());
    out.push(0u8);
    proof {
        assert(out@ =~= manifest_encoding(files@.take(0)));
    }
    let mut i: usize = 0;
    while i < files.len()
        invariant
            i <= files@.len(),
            out@ == manifest_encoding(files@.take(i as int)),
        decreases files.len() - i,
    {
        push_entry(&mut out, &files[i]);
        proof {
            assert(files@.take(i + 1).drop_last() =~= files@.take(i as int));
        }
        i += 1;
    }
    proof {
        assert(files@.take(files@.len() as int) =~= files@);
    }
    sha256_hex_string(&out)
}

proof fn lemma_filter_map_nothing<A, B>(s: Seq<A>, f: spec_fn(A) -> Option<B>, k: int)
    requires
        0 <= k <= s.len(),
        forall|i: int| 0 <= i < s.len() ==> #[trigger] f(s[i]) is None,
    ensures
        s.take(k).filter_map(f) == Seq::<B>::empty(),
    decreases k,
{
    if k == 0 {
        assert(s.take(0) =~= Seq::<A>::empty());
        assert(s.take(0).filter_map(f) =~= Seq::<B>::empty());
    } else {
        lemma_filter_map_nothing(s, f, k - 1);
        s.lemma_filter_map_take_succ(f, k - 1);
        assert(f(s[k - 1]) is None);
    }
}

/// Comparing a snapshot with itself shows no change: nothing created, deleted, or
/// modified in content or permissions.
pub proof fn diff_with_itself_is_empty(m: SnapshotManifest)
    requires
        m.wf(),
    ensures
        spec_created(m.files@, m.files@) == Seq::<Seq<char>>::empty(),
        spec_content_modified(m.files@, m.files@) == Seq::<Seq<char>>::empty(),
        spec_permission_modified(m.files@, m.files@) == Seq::<Seq<char>>::empty(),
{
    let x = m.files@;
    let fc = |f: FileState| if !has_path(x, f.path@) { Some(f.path@) } else { None };
    let fm = |f: FileState|
        if has_path(x, f.path@) && content_differs(f, entry_at(x, f.path@)) {
            Some(f.path@)
        } else {
            None
        };
    let fp = |f: FileState| if has_path(x, f.path@) && f.unix_mode != entry_at(x, f.path@).unix_mode { Some(f.path@) } else { None };
    assert forall|i: int| 0 <= i < x.len() implies #[trigger] fc(x[i]) is None && fm(x[i]) is None && fp(x[i]) is None by {
        lemma_entry_at(x, i);
    }
    lemma_filter_map_nothing(x, fc, x.len() as int);
    lemma_filter_map_nothing(x, fm, x.len() as int);
    lemma_filter_map_nothing(x, fp, x.len() as int);
    assert(x.take(x.len() as int) =~= x);
}

/// A snapshot has the same content as itself.
pub proof fn same_content_is_reflexive(m: SnapshotManifest)
    requires
        m.wf(),
    ensures
        spec_same_content(m.files@, m.files@),
{
    assert forall|i: int| 0 <= i < m.files@.len() implies #[trigger] same_entry_in(m.files@[i], m.files@) by {
        lemma_entry_at(m.files@, i);
    }
}

/// The paths of `files`, as a set.
pub open spec fn path_set(files: Seq<FileState>) -> Set<Seq<char>> {
    files.map_values(|f: FileState| f.path@).to_set()
}

proof fn lemma_path_set(files: Seq<FileState>)
    requires
        unique_paths(files),
    ensures
        path_set(files).finite(),
        path_set(files).len() == files.len(),
        forall|p: Seq<char>| #[trigger] path_set(files).contains(p) <==> has_path(files, p),
{
    let ps = files.map_values(|f: FileState| f.path@);
    assert forall|i: int, j: int| 0 <= i < ps.len() && 0 <= j < ps.len() && i != j implies ps[i] != ps[j] by {
        assert(ps[i] == files[i].path@ && ps[j] == files[j].path@);
    }
    assert(ps.no_duplicates());
    ps.unique_seq_to_set();
    vstd::seq_lib::seq_to_set_is_finite(ps);
    assert forall|p: Seq<char>| #[trigger] path_set(files).contains(p) <==> has_path(files, p) by {
        if has_path(files, p) {
            let i = choose|i: int| 0 <= i < files.len() && #[trigger] files[i].path@ == p;
            assert(ps[i] == p);
        }
        if ps.to_set().contains(p) {
            let i = choose|i: int| 0 <= i < ps.len() && ps[i] == p;
            assert(files[i].path@ == p);
        }
    }
}

proof fn lemma_filter_map_empty<A, B>(s: Seq<A>, g: spec_fn(A) -> Option<B>)
    ensures
        s.filter_map(g).len() == 0 <==> forall|i: int| 0 <= i < s.len() ==> (#[trigger] g(s[i])) is None,
    decreases s.len(),
{
    if s.len() > 0 {
        let rest = s.drop_last();
        lemma_filter_map_empty(rest, g);
        assert forall|i: int| 0 <= i < rest.len() implies rest[i] == s[i] by {}
        if g(s.last()) is Some {
            assert(s.filter_map(g).len() == rest.filter_map(g).len() + 1);
        } else {
            assert(s.filter_map(g) == rest.filter_map(g));
            assert forall|i: int| 0 <= i < s.len() && (forall|k: int| 0 <= k < rest.len() ==> (#[trigger] g(rest[k])) is None) implies (#[trigger] g(s[i])) is None by {
                if i < rest.len() {
                    assert(g(rest[i]) is None);
                }
            }
        }
    }
}

proof fn lemma_same_content_diff(a: Seq<FileState>, b: Seq<FileState>)
    requires
        unique_paths(a),
        unique_paths(b),
    ensures
        spec_same_content(a, b) <==> {
            &&& spec_created(a, b).len() == 0
            &&& spec_created(b, a).len() == 0
            &&& spec_content_modified(a, b).len() == 0
        },
{
    let fb = |g: FileState| if !has_path(a, g.path@) { Some(g.path@) } else { None };
    let fa = |f: FileState| if !has_path(b, f.path@) { Some(f.path@) } else { None };
    let fc = |f: FileState|
        if has_path(b, f.path@) && content_differs(f, entry_at(b, f.path@)) {
            Some(f.path@)
        } else {
            None
        };
    assert(spec_created(a, b) == b.filter_map(fb));
    assert(spec_created(b, a) == a.filter_map(fa));
    assert(spec_content_modified(a, b) == a.filter_map(fc));
    lemma_filter_map_empty(b, fb);
    lemma_filter_map_empty(a, fa);
    lemma_filter_map_empty(a, fc);
    lemma_path_set(a);
    lemma_path_set(b);
    if spec_same_content(a, b) {
        assert forall|i: int| 0 <= i < a.len() implies (#[trigger] fa(a[i])) is None by {
            assert(same_entry_in(a[i], b));
        }
        assert forall|i: int| 0 <= i < a.len() implies (#[trigger] fc(a[i])) is None by {
            assert(same_entry_in(a[i], b));
        }
        assert(path_set(a).subset_of(path_set(b))) by {
            assert forall|p: Seq<char>| path_set(a).contains(p) implies path_set(b).contains(p) by {
                let i = choose|i: int| 0 <= i < a.len() && #[trigger] a[i].path@ == p;
                assert(same_entry_in(a[i], b));
            }
        }
        vstd::set_lib::lemma_subset_equality(path_set(a), path_set(b));
        assert forall|j: int| 0 <= j < b.len() implies (#[trigger] fb(b[j])) is None by {
            assert(path_set(b).contains(b[j].path@));
        }
        assert(spec_created(a, b).len() == 0);
        assert(spec_created(b, a).len() == 0);
        assert(spec_content_modified(a, b).len() == 0);
    }
    if spec_created(a, b).len() == 0 && spec_created(b, a).len() == 0 && spec_content_modified(a, b).len() == 0 {
        assert(path_set(a) =~= path_set(b)) by {
            assert forall|p: Seq<char>| path_set(a).contains(p) <==> path_set(b).contains(p) by {
                if has_path(a, p) {
                    let i = choose|i: int| 0 <= i < a.len() && #[trigger] a[i].path@ == p;
                    assert(fa(a[i]) is None);
                }
                if has_path(b, p) {
                    let j = choose|j: int| 0 <= j < b.len() && #[trigger] b[j].path@ == p;
                    assert(fb(b[j]) is None);
                }
            }
        }
        assert forall|i: int| 0 <= i < a.len() implies #[trigger] same_entry_in(a[i], b) by {
            assert(fa(a[i]) is None);
            assert(fc(a[i]) is None);
        }
        assert(a.len() == b.len());
        assert(spec_same_content(a, b));
    }
}

/// Two snapshots hold the same content exactly when their difference reports nothing
/// created, nothing deleted and no content changed (modes aside): for well-formed `a` and
/// `b`, [`SnapshotManifest::has_same_content`] holds iff [`SnapshotManifest::diff`] gives
/// empty `created`, `deleted` and `content_modified` lists.
pub proof fn same_content_is_an_empty_diff(a: SnapshotManifest, b: SnapshotManifest)
    requires
        a.wf(),
        b.wf(),
    ensures
        spec_same_content(a.files@, b.files@) <==> {
            &&& spec_created(a.files@, b.files@).len() == 0
            &&& spec_created(b.files@, a.files@).len() == 0
            &&& spec_content_modified(a.files@, b.files@).len() == 0
        },
{
    lemma_same_content_diff(a.files@, b.files@);
}

/// Same content is symmetric: for well-formed `a` and `b`, `a` holds the same content as
/// `b` exactly when `b` holds the same content as `a`.
pub proof fn same_content_is_symmetric(a: SnapshotManifest, b: SnapshotManifest)
    requires
        a.wf(),
        b.wf(),
    ensures
        spec_same_content(a.files@, b.files@) == spec_same_content(b.files@, a.files@),
{
    if spec_same_content(a.files@, b.files@) {
        lemma_same_content_one_way(a.files@, b.files@);
    }
    if spec_same_content(b.files@, a.files@) {
        lemma_same_content_one_way(b.files@, a.files@);
    }
}

proof fn lemma_same_content_one_way(a: Seq<FileState>, b: Seq<FileState>)
    requires
        unique_paths(a),
        unique_paths(b),
        spec_same_content(a, b),
    ensures
        spec_same_content(b, a),
{
    lemma_same_content_diff(a, b);
    let fb = |g: FileState| if !has_path(a, g.path@) { Some(g.path@) } else { None };
    assert(spec_created(a, b) == b.filter_map(fb));
    lemma_filter_map_empty(b, fb);
    assert forall|j: int| 0 <= j < b.len() implies #[trigger] same_entry_in(b[j], a) by {
        assert(fb(b[j]) is None);
        let p = b[j].path@;
        let i = choose|i: int| 0 <= i < a.len() && #[trigger] a[i].path@ == p;
        lemma_entry_at(a, i);
        lemma_entry_at(b, j);
        assert(same_entry_in(a[i], b));
    }
}

/// What `f` keeps of `s[i]` is in `s.filter_map(f)`.
pub(crate) proof fn lemma_filter_map_keeps<A, B>(s: Seq<A>, f: spec_fn(A) -> Option<B>, i: int)
    requires
        0 <= i < s.len(),
        f(s[i]) is Some,
    ensures
        s.filter_map(f).contains(f(s[i])->0),
    decreases s.len(),
{
    let rest = s.drop_last();
    if i == s.len() - 1 {
        assert(s.filter_map(f) == rest.filter_map(f).push(f(s[i])->0));
        assert(s.filter_map(f).last() == f(s[i])->0);
    } else {
        lemma_filter_map_keeps(rest, f, i);
        assert(rest[i] == s[i]);
        let k = choose|k: int| 0 <= k < rest.filter_map(f).len() && rest.filter_map(f)[k] == f(s[i])->0;
        match f(s.last()) {
            Some(b) => {
                assert(s.filter_map(f) == rest.filter_map(f).push(b));
                assert(s.filter_map(f)[k] == f(s[i])->0);
            },
            None => {
                assert(s.filter_map(f) == rest.filter_map(f));
            },
        }
    }
}

/// `p` is in the paths that `f` keeps of `files` exactly when some entry with path `p`
/// passes `keep`.
proof fn lemma_kept_path(files: Seq<FileState>, f: spec_fn(FileState) -> Option<Seq<char>>, keep: spec_fn(FileState) -> bool, p: Seq<char>)
    requires
        forall|x: FileState| #[trigger] f(x) == (if keep(x) { Some(x.path@) } else { None }),
    ensures
        files.filter_map(f).contains(p) <==> exists|i: int| 0 <= i < files.len() && files[i].path@ == p && #[trigger] keep(files[i]),
{
    if files.filter_map(f).contains(p) {
        files.lemma_filter_map_contains(f, p);
        let t = choose|t: FileState| #[trigger] files.contains(t) && f(t) == Some(p);
        let i = choose|i: int| 0 <= i < files.len() && files[i] == t;
        assert(files[i].path@ == p && keep(files[i]));
    }
    if exists|i: int| 0 <= i < files.len() && files[i].path@ == p && #[trigger] keep(files[i]) {
        let i = choose|i: int| 0 <= i < files.len() && files[i].path@ == p && #[trigger] keep(files[i]);
        lemma_filter_map_keeps(files, f, i);
    }
}

/// The difference in set form: for well-formed `a` and `b`, `created` holds exactly the
/// paths of `b` that `a` lacks and `deleted` those of `a` that `b` lacks (so what `a` to `b`
/// reports as created, `b` to `a` reports as deleted), `content_modified` exactly the common
/// paths whose kind, digest, size or link target differ, and `permission_modified` exactly
/// the common paths whose Unix mode differs.
pub proof fn diff_in_set_form(a: SnapshotManifest, b: SnapshotManifest)
    requires
        a.wf(),
        b.wf(),
    ensures
        spec_created(a.files@, b.files@).to_set() == path_set(b.files@).difference(path_set(a.files@)),
        spec_created(b.files@, a.files@).to_set() == path_set(a.files@).difference(path_set(b.files@)),
        forall|p: Seq<char>| #[trigger] spec_content_modified(a.files@, b.files@).contains(p) <==> {
            &&& has_path(a.files@, p)
            &&& has_path(b.files@, p)
            &&& content_differs(entry_at(a.files@, p), entry_at(b.files@, p))
        },
        forall|p: Seq<char>| #[trigger] spec_permission_modified(a.files@, b.files@).contains(p) <==> {
            &&& has_path(a.files@, p)
            &&& has_path(b.files@, p)
            &&& entry_at(a.files@, p).unix_mode != entry_at(b.files@, p).unix_mode
        },
{
    let af = a.files@;
    let bf = b.files@;
    lemma_path_set(af);
    lemma_path_set(bf);
    let kb = |g: FileState| !has_path(af, g.path@);
    let fb = |f: FileState| if !has_path(af, f.path@) { Some(f.path@) } else { None };
    let ka = |g: FileState| !has_path(bf, g.path@);
    let fa = |f: FileState| if !has_path(bf, f.path@) { Some(f.path@) } else { None };
    let kc = |g: FileState| has_path(bf, g.path@) && content_differs(g, entry_at(bf, g.path@));
    let fc = |f: FileState|
        if has_path(bf, f.path@) && content_differs(f, entry_at(bf, f.path@)) {
            Some(f.path@)
        } else {
            None
        };
    let kp = |g: FileState| has_path(bf, g.path@) && g.unix_mode != entry_at(bf, g.path@).unix_mode;
    let fp = |f: FileState|
        if has_path(bf, f.path@) && f.unix_mode != entry_at(bf, f.path@).unix_mode {
            Some(f.path@)
        } else {
            None
        };
    assert(spec_created(af, bf) == bf.filter_map(fb));
    assert(spec_created(bf, af) == af.filter_map(fa));
    assert(spec_content_modified(af, bf) == af.filter_map(fc));
    assert(spec_permission_modified(af, bf) == af.filter_map(fp));
    assert(spec_created(af, bf).to_set() =~= path_set(bf).difference(path_set(af))) by {
        assert forall|p: Seq<char>| spec_created(af, bf).to_set().contains(p) <==> path_set(bf).difference(path_set(af)).contains(p) by {
            lemma_kept_path(bf, fb, kb, p);
            if has_path(bf, p) && !has_path(af, p) {
                let i = choose|i: int| 0 <= i < bf.len() && #[trigger] bf[i].path@ == p;
                assert(kb(bf[i]));
            }
        }
    }
    assert(spec_created(bf, af).to_set() =~= path_set(af).difference(path_set(bf))) by {
        assert forall|p: Seq<char>| spec_created(bf, af).to_set().contains(p) <==> path_set(af).difference(path_set(bf)).contains(p) by {
            lemma_kept_path(af, fa, ka, p);
            if has_path(af, p) && !has_path(bf, p) {
                let i = choose|i: int| 0 <= i < af.len() && #[trigger] af[i].path@ == p;
                assert(ka(af[i]));
            }
        }
    }
    assert forall|p: Seq<char>| #[trigger] spec_content_modified(af, bf).contains(p) <==> {
        &&& has_path(af, p)
        &&& has_path(bf, p)
        &&& content_differs(entry_at(af, p), entry_at(bf, p))
    } by {
        lemma_kept_path(af, fc, kc, p);
        if has_path(af, p) {
            let i = choose|i: int| 0 <= i < af.len() && #[trigger] af[i].path@ == p;
            lemma_entry_at(af, i);
            if kc(af[i]) {
                assert(af[i].path@ == p && kc(af[i]));
            }
        }
        if exists|i: int| 0 <= i < af.len() && af[i].path@ == p && #[trigger] kc(af[i]) {
            let i = choose|i: int| 0 <= i < af.len() && af[i].path@ == p && #[trigger] kc(af[i]);
            lemma_entry_at(af, i);
            assert(has_path(af, p));
        }
    }
    assert forall|p: Seq<char>| #[trigger] spec_permission_modified(af, bf).contains(p) <==> {
        &&& has_path(af, p)
        &&& has_path(bf, p)
        &&& entry_at(af, p).unix_mode != entry_at(bf, p).unix_mode
    } by {
        lemma_kept_path(af, fp, kp, p);
        if has_path(af, p) {
            let i = choose|i: int| 0 <= i < af.len() && #[trigger] af[i].path@ == p;
            lemma_entry_at(af, i);
            if kp(af[i]) {
                assert(af[i].path@ == p && kp(af[i]));
            }
        }
        if exists|i: int| 0 <= i < af.len() && af[i].path@ == p && #[trigger] kp(af[i]) {
            let i = choose|i: int| 0 <= i < af.len() && af[i].path@ == p && #[trigger] kp(af[i]);
            lemma_entry_at(af, i);
            assert(has_path(af, p));
        }
    }
}

} // verus!
