use vstd::prelude::*;
use crate::domain::snapshot::{
    content_differs, entry_at, find_path, has_path, lemma_entry_at, lemma_filter_map_keeps, spec_content_modified,
    spec_created, spec_permission_modified, unique_paths, FileState, FileType, SnapshotManifest,
};
use crate::recorder::RecorderError;
use crate::text::opt_text_eq;

verus! {

/// One file change of a checkpoint patch: write the file's current content with its Unix
/// mode, or delete the path.
#[derive(Clone, Debug)]
pub enum PlannedReplacement {
    Write { path: String, unix_mode: Option<u32> },
    Delete { path: String },
}

/// A planned change as a path and, for a write, the mode to set.
pub open spec fn plan_view(p: PlannedReplacement) -> (Seq<char>, Option<Option<u32>>) {
    match p {
        PlannedReplacement::Write { path, unix_mode } => (path@, Some(unix_mode)),
        PlannedReplacement::Delete { path } => (path@, None),
    }
}

pub open spec fn plan_views(ps: Seq<PlannedReplacement>) -> Seq<(Seq<char>, Option<Option<u32>>)> {
    ps.map_values(|p: PlannedReplacement| plan_view(p))
}

/// The entry `g` of the later snapshot is new, or its content or Unix mode changed.
pub open spec fn entry_changed(before: Seq<FileState>, g: FileState) -> bool {
    ||| !has_path(before, g.path@)
    ||| content_differs(entry_at(before, g.path@), g)
    ||| entry_at(before, g.path@).unix_mode != g.unix_mode
}

/// A changed regular file is written back.
pub open spec fn write_of(before: Seq<FileState>, g: FileState) -> Option<(Seq<char>, Option<Option<u32>>)> {
    if entry_changed(before, g) && g.file_type == FileType::Regular {
        Some((g.path@, Some(g.unix_mode)))
    } else {
        None
    }
}

/// A vanished entry that is not a symbolic link is deleted.
pub open spec fn delete_of(after: Seq<FileState>, f: FileState) -> Option<(Seq<char>, Option<Option<u32>>)> {
    if !has_path(after, f.path@) && f.file_type != FileType::Symlink {
        Some((f.path@, None))
    } else {
        None
    }
}

/// The writes, in the later snapshot's order, then the deletions, in the earlier one's.
pub open spec fn spec_plan(before: Seq<FileState>, after: Seq<FileState>) -> Seq<(Seq<char>, Option<Option<u32>>)> {
    after.filter_map(|g: FileState| write_of(before, g)) + before.filter_map(
        |f: FileState| delete_of(after, f),
    )
}

/// The `i`-th entry of `after` is a symbolic link that is new or changed.
pub open spec fn changed_symlink_at(before: Seq<FileState>, after: Seq<FileState>, i: int) -> bool {
    &&& 0 <= i < after.len()
    &&& entry_changed(before, after[i])
    &&& after[i].file_type == FileType::Symlink
}

/// The `k`-th entry of `before` is a symbolic link that `after` no longer has.
pub open spec fn deleted_symlink_at(before: Seq<FileState>, after: Seq<FileState>, k: int) -> bool {
    &&& 0 <= k < before.len()
    &&& !has_path(after, before[k].path@)
    &&& before[k].file_type == FileType::Symlink
}

/// Every entry of the earlier snapshot that the later one lacks and that is not a symbolic
/// link (a directory too) is deleted by the plan.
pub proof fn vanished_entries_are_deleted(before: Seq<FileState>, after: Seq<FileState>, k: int)
    requires
        0 <= k < before.len(),
        forall|j: int| 0 <= j < after.len() ==> (#[trigger] after[j]).path@ != before[k].path@,
        before[k].file_type != FileType::Symlink,
    ensures
        spec_plan(before, after).contains((before[k].path@, None)),
{
    let df = |f: FileState| delete_of(after, f);
    assert(!has_path(after, before[k].path@));
    assert(df(before[k]) == Some((before[k].path@, None::<Option<u32>>)));
    lemma_filter_map_keeps(before, df, k);
    let writes = after.filter_map(|g: FileState| write_of(before, g));
    let dels = before.filter_map(df);
    let i = choose|i: int| 0 <= i < dels.len() && dels[i] == (before[k].path@, None::<Option<u32>>);
    assert(spec_plan(before, after)[writes.len() + i] == dels[i]);
}

/// Every planned step has a reason: a deletion is of an entry of the earlier snapshot that
/// the later one lacks and that is not a symbolic link; a write is of a regular file of the
/// later snapshot, with that file's mode.
pub proof fn planned_steps_are_justified(before: Seq<FileState>, after: Seq<FileState>, step: (Seq<char>, Option<Option<u32>>))
    requires
        spec_plan(before, after).contains(step),
    ensures
        step.1 is None ==> exists|k: int|
            0 <= k < before.len() && (#[trigger] before[k]).path@ == step.0 && before[k].file_type != FileType::Symlink
                && forall|j: int| 0 <= j < after.len() ==> (#[trigger] after[j]).path@ != step.0,
        step.1 is Some ==> exists|i: int|
            0 <= i < after.len() && (#[trigger] after[i]).path@ == step.0 && after[i].file_type == FileType::Regular
                && step.1 == Some(after[i].unix_mode),
{
    let wf = |g: FileState| write_of(before, g);
    let df = |f: FileState| delete_of(after, f);
    let writes = after.filter_map(wf);
    let dels = before.filter_map(df);
    let m = choose|m: int| 0 <= m < spec_plan(before, after).len() && spec_plan(before, after)[m] == step;
    if m < writes.len() {
        assert(writes.contains(step)) by {
            assert(writes[m] == step);
        }
        after.lemma_filter_map_contains(wf, step);
        let g = choose|g: FileState| #[trigger] after.contains(g) && wf(g) == Some(step);
        let i = choose|i: int| 0 <= i < after.len() && after[i] == g;
        assert(after[i].path@ == step.0);
    } else {
        assert(dels.contains(step)) by {
            assert(dels[m - writes.len()] == step);
        }
        before.lemma_filter_map_contains(df, step);
        let f = choose|f: FileState| #[trigger] before.contains(f) && df(f) == Some(step);
        let k = choose|k: int| 0 <= k < before.len() && before[k] == f;
        assert(before[k].path@ == step.0);
    }
}

/// Every regular file of the later snapshot that is new, or whose content or mode differs
/// from the earlier snapshot's entry at the same path, is written with its mode.
pub proof fn changed_regular_files_are_written(before: Seq<FileState>, after: Seq<FileState>, i: int)
    requires
        unique_paths(before),
        0 <= i < after.len(),
        after[i].file_type == FileType::Regular,
        forall|k: int|
            0 <= k < before.len() && (#[trigger] before[k]).path@ == after[i].path@ ==> content_differs(before[k], after[i])
                || before[k].unix_mode != after[i].unix_mode,
    ensures
        spec_plan(before, after).contains((after[i].path@, Some(after[i].unix_mode))),
{
    let wf = |g: FileState| write_of(before, g);
    if has_path(before, after[i].path@) {
        let k = choose|k: int| 0 <= k < before.len() && #[trigger] before[k].path@ == after[i].path@;
        lemma_entry_at(before, k);
    }
    assert(entry_changed(before, after[i]));
    lemma_filter_map_keeps(after, wf, i);
    let writes = after.filter_map(wf);
    let w = choose|w: int| 0 <= w < writes.len() && writes[w] == (after[i].path@, Some(after[i].unix_mode));
    assert(spec_plan(before, after)[w] == writes[w]);
}

/// The file replacements that turn the snapshot `before` into `after`: each new or changed
/// regular file is written with its mode, each vanished entry is deleted, and directories
/// need nothing. A patch cannot carry a symbolic link: a new or changed one (the first in
/// `after`'s order) is refused, else a deleted one (the first in `before`'s order).
pub fn plan_replacements(before: &SnapshotManifest, after: &SnapshotManifest) -> (res: Result<
    Vec<PlannedReplacement>,
    RecorderError,
>)
    requires
        before.wf(),
    ensures
        res is Ok <==> (forall|i: int| !changed_symlink_at(before.files@, after.files@, i)) && (forall|k: int|
            !deleted_symlink_at(before.files@, after.files@, k)),
        res matches Ok(v) ==> plan_views(v@) == spec_plan(before.files@, after.files@),
        res matches Ok(v) ==> forall|k: int|
            0 <= k < before.files@.len() && before.files@[k].file_type != FileType::Symlink && (forall|j: int|
                0 <= j < after.files@.len() ==> (#[trigger] after.files@[j]).path@ != before.files@[k].path@) ==> exists|m: int|
                0 <= m < v@.len() && (#[trigger] v@[m] matches PlannedReplacement::Delete { path } && path@
                    == before.files@[k].path@),
        res matches Err(e) ==> (exists|i: int|
            {
                &&& #[trigger] changed_symlink_at(before.files@, after.files@, i)
                &&& forall|j: int| 0 <= j < i ==> !changed_symlink_at(before.files@, after.files@, j)
                &&& e matches RecorderError::SymlinkPatch { path } && path@ == after.files@[i].path@
            }) || ((forall|i: int| !changed_symlink_at(before.files@, after.files@, i)) && exists|k: int|
            {
                &&& #[trigger] deleted_symlink_at(before.files@, after.files@, k)
                &&& forall|j: int| 0 <= j < k ==> !deleted_symlink_at(before.files@, after.files@, j)
                &&& e matches RecorderError::SymlinkPatch { path } && path@ == before.files@[k].path@
            }),
{
    let ghost bf = before.files@;
    let ghost af = after.files@;
    let ghost wf = |g: FileState| write_of(bf, g);
    let ghost df = |f: FileState| delete_of(af, f);
    let mut res: Vec<PlannedReplacement> = Vec::new();
    let mut i: usize = 0;
    proof {
        assert(af.take(0).filter_map(wf) =~= Seq::<(Seq<char>, Option<Option<u32>>)>::empty());
        assert(plan_views(res@) =~= Seq::<(Seq<char>, Option<Option<u32>>)>::empty());
    }
    while i < after.files.len()
        invariant
            i <= af.len(),
            bf == before.files@,
            af == after.files@,
            unique_paths(bf),
            wf == (|g: FileState| write_of(bf, g)),
            plan_views(res@) == af.take(i as int).filter_map(wf),
            forall|j: int| 0 <= j < i ==> !changed_symlink_at(bf, af, j),
        decreases after.files.len() - i,
    {
        proof {
            af.lemma_filter_map_take_succ(wf, i as int);
        }
        let g = &after.files[i];
        let changed = match find_path(&before.files, &g.path) {
            None => true,
            Some(j) => {
                proof {
                    lemma_entry_at(bf, j as int);
                }
                let b = &before.files[j];
                let same_content = b.file_type == g.file_type && opt_text_eq(&b.sha256, &g.sha256)
                    && b.size == g.size && opt_text_eq(&b.symlink_target, &g.symlink_target);
                let same_mode = match (b.unix_mode, g.unix_mode) {
                    (Some(x), Some(y)) => x == y,
                    (None, None) => true,
                    _ => false,
                };
                !same_content || !same_mode
            },
        };
        assert(changed == entry_changed(bf, af[i as int]));
        if changed {
            match g.file_type {
                FileType::Regular => {
                    let path = g.path.clone();
                    let ghost old_res = res@;
                    res.push(PlannedReplacement::Write { path, unix_mode: g.unix_mode });
                    proof {
                        assert(plan_views(res@) =~= plan_views(old_res).push(
                            plan_view(res@.last()),
                        ));
                    }
                },
                FileType::Directory => {},
                FileType::Symlink => {
                    assert(changed_symlink_at(bf, af, i as int));
                    return Err(RecorderError::SymlinkPatch { path: g.path.clone() });
                },
            }
        }
        proof {
            assert(plan_views(res@) =~= af.take(i + 1).filter_map(wf));
        }
        i += 1;
    }
    assert forall|j: int| !changed_symlink_at(bf, af, j) by {
        if 0 <= j < af.len() {
            assert(j < i);
        }
    }
    proof {
        assert(af.take(af.len() as int) =~= af);
        assert(bf.take(0).filter_map(df) =~= Seq::<(Seq<char>, Option<Option<u32>>)>::empty());
        assert(plan_views(res@) =~= af.filter_map(wf) + bf.take(0).filter_map(df));
    }
    let mut k: usize = 0;
    while k < before.files.len()
        invariant
            k <= bf.len(),
            bf == before.files@,
            af == after.files@,
            df == (|f: FileState| delete_of(af, f)),
            plan_views(res@) == af.filter_map(wf) + bf.take(k as int).filter_map(df),
            forall|i: int| !changed_symlink_at(bf, af, i),
            forall|j: int| 0 <= j < k ==> !deleted_symlink_at(bf, af, j),
        decreases before.files.len() - k,
    {
        proof {
            bf.lemma_filter_map_take_succ(df, k as int);
        }
        let f = &before.files[k];
        let gone = find_path(&after.files, &f.path).is_none();
        if gone && f.file_type == FileType::Symlink {
            assert(deleted_symlink_at(bf, af, k as int));
            return Err(RecorderError::SymlinkPatch { path: f.path.clone() });
        }
        if gone {
            let path = f.path.clone();
            let ghost old_res = res@;
            res.push(PlannedReplacement::Delete { path });
            proof {
                assert(plan_views(res@) =~= plan_views(old_res).push(plan_view(res@.last())));
            }
        }
        proof {
            assert(plan_views(res@) =~= af.filter_map(wf) + bf.take(k + 1).filter_map(df));
        }
        k += 1;
    }
    proof {
        assert(bf.take(bf.len() as int) =~= bf);
        assert forall|k: int|
            0 <= k < before.files@.len() && before.files@[k].file_type != FileType::Symlink && (forall|j: int|
                0 <= j < after.files@.len() ==> (#[trigger] after.files@[j]).path@ != before.files@[k].path@) implies exists|m: int|
                0 <= m < res@.len() && (#[trigger] res@[m] matches PlannedReplacement::Delete { path } && path@
                    == before.files@[k].path@) by {
            vanished_entries_are_deleted(bf, af, k);
            let pv = plan_views(res@);
            let m = choose|m: int| 0 <= m < pv.len() && pv[m] == (bf[k].path@, None::<Option<u32>>);
            assert(pv[m] == plan_view(res@[m]));
            assert(res@[m] matches PlannedReplacement::Delete { path } && path@ == before.files@[k].path@);
        }
    }
    Ok(res)
}

/// A checkpoint writes back exactly the entries whose paths the snapshot difference reports
/// as created, as changed in content or as changed in mode: for every path `p`, the later
/// snapshot has a new or changed entry at `p` if and only if [`SnapshotManifest::diff`]
/// lists `p` in one of those three lists.
pub proof fn changed_entries_are_the_diff(before: SnapshotManifest, after: SnapshotManifest, p: Seq<char>)
    requires
        before.wf(),
        after.wf(),
    ensures
        (exists|i: int|
            0 <= i < after.files@.len() && #[trigger] after.files@[i].path@ == p && entry_changed(
                before.files@,
                after.files@[i],
            )) <==> {
            ||| spec_created(before.files@, after.files@).contains(p)
            ||| spec_content_modified(before.files@, after.files@).contains(p)
            ||| spec_permission_modified(before.files@, after.files@).contains(p)
        },
{
    let bf = before.files@;
    let af = after.files@;
    let fcr = |f: FileState| if !has_path(bf, f.path@) { Some(f.path@) } else { None };
    let fc = |f: FileState|
        if has_path(af, f.path@) && content_differs(f, entry_at(af, f.path@)) {
            Some(f.path@)
        } else {
            None
        };
    let fp = |f: FileState|
        if has_path(af, f.path@) && f.unix_mode != entry_at(af, f.path@).unix_mode {
            Some(f.path@)
        } else {
            None
        };
    assert(spec_created(bf, af) == af.filter_map(fcr));
    assert(spec_content_modified(bf, af) == bf.filter_map(fc));
    assert(spec_permission_modified(bf, af) == bf.filter_map(fp));
    if exists|i: int| 0 <= i < af.len() && #[trigger] af[i].path@ == p && entry_changed(bf, af[i]) {
        let i = choose|i: int| 0 <= i < af.len() && #[trigger] af[i].path@ == p && entry_changed(bf, af[i]);
        lemma_entry_at(af, i);
        if !has_path(bf, p) {
            lemma_filter_map_keeps(af, fcr, i);
        } else {
            let k = choose|k: int| 0 <= k < bf.len() && #[trigger] bf[k].path@ == p;
            lemma_entry_at(bf, k);
            if content_differs(bf[k], af[i]) {
                lemma_filter_map_keeps(bf, fc, k);
            } else {
                lemma_filter_map_keeps(bf, fp, k);
            }
        }
    }
    if spec_created(bf, af).contains(p) {
        af.lemma_filter_map_contains(fcr, p);
        let t = choose|t: FileState| #[trigger] af.contains(t) && fcr(t) == Some(p);
        let i = choose|i: int| 0 <= i < af.len() && af[i] == t;
        assert(af[i].path@ == p && entry_changed(bf, af[i]));
    }
    if spec_content_modified(bf, af).contains(p) || spec_permission_modified(bf, af).contains(p) {
        let t = if spec_content_modified(bf, af).contains(p) {
            bf.lemma_filter_map_contains(fc, p);
            choose|t: FileState| #[trigger] bf.contains(t) && fc(t) == Some(p)
        } else {
            bf.lemma_filter_map_contains(fp, p);
            choose|t: FileState| #[trigger] bf.contains(t) && fp(t) == Some(p)
        };
        let k = choose|k: int| 0 <= k < bf.len() && bf[k] == t;
        lemma_entry_at(bf, k);
        let i = choose|i: int| 0 <= i < af.len() && #[trigger] af[i].path@ == p;
        lemma_entry_at(af, i);
        assert(af[i].path@ == p && entry_changed(bf, af[i]));
    }
}

} // verus!
