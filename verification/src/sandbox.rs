use vstd::prelude::*;
use crate::paths::{components, path_components, ComponentView, PathComponent};
use crate::text::{chars_eq, chars_of, string_from_chars};

verus! {

/// Why a project path was refused.
#[derive(Clone, Debug)]
pub enum SandboxError {
    /// The path leaves the project: it is absolute or holds `..`.
    NotProjectRelative { path: String },
    /// Once resolved, the path lies outside the project.
    EscapesRoot { path: String },
    /// A write would go through a symbolic link.
    ThroughSymlink { path: String },
    /// The file system refused an operation on `path`.
    Io { operation: String, path: String, message: String },
}

/// A path that stays inside the project: empty, or without `..` and without a root.
pub open spec fn project_relative(p: Seq<char>) -> bool {
    forall|i: int| 0 <= i < components(p).len() ==> !(#[trigger] components(p)[i] is ParentDir)
        && !(components(p)[i] is RootDir)
}

/// Accepts a path that stays inside the project.
pub fn validate_relative(relative: &str) -> (res: Result<(), SandboxError>)
    ensures
        res is Ok <==> project_relative(relative@),
        res matches Err(e) ==> e matches SandboxError::NotProjectRelative { path } && path@ == relative@,
{
    let comps = path_components(relative);
    let ghost cv = comps@.map_values(|c: PathComponent| c@);
    let mut i: usize = 0;
    while i < comps.len()
        invariant
            i <= comps@.len(),
            cv == comps@.map_values(|c: PathComponent| c@),
            cv == components(relative@),
            forall|j: int| 0 <= j < i ==> !(#[trigger] cv[j] is ParentDir) && !(cv[j] is RootDir),
        decreases comps.len() - i,
    {
        let bad = match &comps[i] {
            PathComponent::ParentDir => true,
            PathComponent::RootDir => true,
            _ => false,
        };
        if bad {
            assert(cv[i as int] == comps@[i as int]@);
            return Err(SandboxError::NotProjectRelative { path: relative.to_owned() });
        }
        i += 1;
    }
    Ok(())
}

fn same_component(a: &PathComponent, b: &PathComponent) -> (res: bool)
    ensures
        res == (a@ == b@),
{
    match (a, b) {
        (PathComponent::RootDir, PathComponent::RootDir) => true,
        (PathComponent::CurDir, PathComponent::CurDir) => true,
        (PathComponent::ParentDir, PathComponent::ParentDir) => true,
        (PathComponent::Normal(x), PathComponent::Normal(y)) => chars_eq(&chars_of(x.as_str()), &chars_of(y.as_str())),
        _ => false,
    }
}

/// `base`'s components begin `path`'s (`Path::starts_with`).
pub open spec fn path_starts_with(path: Seq<char>, base: Seq<char>) -> bool {
    components(base).len() <= components(path).len() && components(path).take(components(base).len() as int)
        == components(base)
}

/// Whether `path` lies under `base`, component by component.
pub fn starts_with_path(path: &str, base: &str) -> (res: bool)
    ensures
        res == path_starts_with(path@, base@),
{
    let p = path_components(path);
    let b = path_components(base);
    let ghost pv = p@.map_values(|c: PathComponent| c@);
    let ghost bv = b@.map_values(|c: PathComponent| c@);
    if b.len() > p.len() {
        return false;
    }
    let mut i: usize = 0;
    while i < b.len()
        invariant
            b@.len() <= p@.len(),
            i <= b@.len(),
            pv == p@.map_values(|c: PathComponent| c@),
            bv == b@.map_values(|c: PathComponent| c@),
            pv == components(path@),
            bv == components(base@),
            forall|j: int| 0 <= j < i ==> pv[j] == bv[j],
        decreases b.len() - i,
    {
        if !same_component(&p[i], &b[i]) {
            assert(pv.take(bv.len() as int)[i as int] != bv[i as int]);
            return false;
        }
        i += 1;
    }
    assert(pv.take(bv.len() as int) =~= bv);
    true
}

/// `relative` joined onto `root` (`Path::join`): an absolute `relative` replaces `root`;
/// else a `/` separates them unless `root` is empty or already ends in one.
pub open spec fn join_path(root: Seq<char>, relative: Seq<char>) -> Seq<char> {
    if relative.len() > 0 && relative[0] == '/' {
        relative
    } else if root.len() == 0 || root.last() == '/' {
        root + relative
    } else {
        root + seq!['/'] + relative
    }
}

/// Joins `relative` onto `root`.
pub fn join(root: &str, relative: &str) -> (res: String)
    ensures
        res@ == join_path(root@, relative@),
{
    let r = chars_of(root);
    let rel = chars_of(relative);
    if rel.len() > 0 && rel[0] == '/' {
        return relative.to_owned();
    }
    let mut out = r;
    if out.len() > 0 && out[out.len() - 1] != '/' {
        out.push('/');
    }
    let ghost base = out@;
    let mut k: usize = 0;
    while k < rel.len()
        invariant
            k <= rel@.len(),
            out@ == base + rel@.take(k as int),
        decreases rel.len() - k,
    {
        out.push(rel[k]);
        k += 1;
        assert(out@ =~= base + rel@.take(k as int));
    }
    assert(rel@.take(rel@.len() as int) =~= rel@);
    string_from_chars(&out)
}

/// `c` is what `canonicalize` made of `root` joined with `relative`, and it lies under what
/// `canonicalize` made of `root`.
pub open spec fn resolved_within<F: Fn(&str) -> Result<String, String>>(canonicalize: F, root: Seq<char>, relative: Seq<char>, c: String) -> bool {
    exists|pr: &str, pc: &str, cr: String|
        #![trigger canonicalize.ensures((pr,), Ok(cr)), canonicalize.ensures((pc,), Ok(c))]
        pr@ == root && pc@ == join_path(root, relative) && canonicalize.ensures((pr,), Ok(cr))
            && canonicalize.ensures((pc,), Ok(c)) && path_starts_with(c@, cr@)
}

/// `canonicalize` made `c` of `root` joined with `relative`, and `c` does not lie under
/// what it made of `root`.
pub open spec fn resolved_outside<F: Fn(&str) -> Result<String, String>>(canonicalize: F, root: Seq<char>, relative: Seq<char>) -> bool {
    exists|pr: &str, pc: &str, cr: String, c: String|
        #![trigger canonicalize.ensures((pr,), Ok(cr)), canonicalize.ensures((pc,), Ok(c))]
        pr@ == root && pc@ == join_path(root, relative) && canonicalize.ensures((pr,), Ok(cr))
            && canonicalize.ensures((pc,), Ok(c)) && !path_starts_with(c@, cr@)
}

/// `canonicalize` failed on the path `p` with `message`.
pub open spec fn canonicalize_failed<F: Fn(&str) -> Result<String, String>>(canonicalize: F, p: Seq<char>, message: String) -> bool {
    exists|q: &str| #![trigger canonicalize.ensures((q,), Err::<String, String>(message))]
        q@ == p && canonicalize.ensures((q,), Err::<String, String>(message))
}

/// The existing file or directory `relative` inside the project `root`, resolved by
/// `canonicalize` (which returns the resolved path or why it failed), refused unless the
/// path is project-relative and its resolved form lies under the resolved root.
pub fn safe_existing_path<F: Fn(&str) -> Result<String, String>>(root: &str, relative: &str, canonicalize: F) -> (res: Result<String, SandboxError>)
    requires
        forall|p: &str| canonicalize.requires((p,)),
    ensures
        res is Ok ==> project_relative(relative@),
        !project_relative(relative@) ==> (res matches Err(SandboxError::NotProjectRelative { path }) && path@ == relative@),
        res matches Ok(c) ==> resolved_within(canonicalize, root@, relative@, c),
        res matches Err(SandboxError::NotProjectRelative { path }) ==> !project_relative(relative@),
        res matches Err(SandboxError::EscapesRoot { path }) ==> path@ == relative@ && project_relative(relative@)
            && resolved_outside(canonicalize, root@, relative@),
        res matches Err(SandboxError::Io { operation, path, message }) ==> project_relative(relative@) && (
            (path@ == root@ || path@ == join_path(root@, relative@)) && canonicalize_failed(canonicalize, path@, message)),
        res matches Err(SandboxError::ThroughSymlink { path }) ==> false,
{
    match validate_relative(relative) {
        Err(e) => {
            return Err(e);
        },
        Ok(()) => {},
    }
    let canonical_root = match canonicalize(root) {
        Ok(c) => c,
        Err(message) => {
            assert(canonicalize.ensures((root,), Err::<String, String>(message)));
            return Err(SandboxError::Io {
                operation: String::from_str("canonicalize sandbox root"),
                path: root.to_owned(),
                message,
            });
        },
    };
    let candidate = join(root, relative);
    let pc = candidate.as_str();
    let canonical_candidate = match canonicalize(pc) {
        Ok(c) => c,
        Err(message) => {
            assert(canonicalize.ensures((pc,), Err::<String, String>(message)));
            return Err(SandboxError::Io {
                operation: String::from_str("canonicalize sandbox path"),
                path: candidate.clone(),
                message,
            });
        },
    };
    if !starts_with_path(canonical_candidate.as_str(), canonical_root.as_str()) {
        assert(canonicalize.ensures((root,), Ok(canonical_root)));
        assert(canonicalize.ensures((pc,), Ok(canonical_candidate)));
        assert(resolved_outside(canonicalize, root@, relative@));
        return Err(SandboxError::EscapesRoot { path: relative.to_owned() });
    }
    assert(canonicalize.ensures((root,), Ok(canonical_root)));
    assert(canonicalize.ensures((pc,), Ok(canonical_candidate)));
    assert(resolved_within(canonicalize, root@, relative@, canonical_candidate));
    Ok(canonical_candidate)
}

/// `root` joined with the plain names among the first `n` of the components `cs`.
pub open spec fn joined_prefix(root: Seq<char>, cs: Seq<ComponentView>, n: int) -> Seq<char>
    decreases n,
{
    if n <= 0 {
        root
    } else {
        let prev = joined_prefix(root, cs, n - 1);
        match cs[n - 1] {
            ComponentView::Normal(name) => join_path(prev, name),
            _ => prev,
        }
    }
}

/// `is_symlink` answered `answer` for the path `p`.
pub open spec fn symlink_answer<F: Fn(&str) -> Result<bool, String>>(is_symlink: F, p: Seq<char>, answer: Result<bool, String>) -> bool {
    exists|q: &str| #![trigger is_symlink.ensures((q,), answer)] q@ == p && is_symlink.ensures((q,), answer)
}

/// The project path `relative` inside `root`, for writing: refused unless project-relative
/// and unless no existing prefix of it (by `is_symlink`, which says whether a path is a
/// symbolic link, `Ok(false)` when it does not exist) is a symbolic link.
pub fn safe_write_path<F: Fn(&str) -> Result<bool, String>>(root: &str, relative: &str, is_symlink: F) -> (res: Result<String, SandboxError>)
    requires
        forall|p: &str| is_symlink.requires((p,)),
    ensures
        res is Ok ==> project_relative(relative@),
        !project_relative(relative@) ==> (res matches Err(SandboxError::NotProjectRelative { path }) && path@ == relative@),
        res matches Ok(p) ==> p@ == join_path(root@, relative@) && forall|k: int|
            1 <= k <= components(relative@).len() && #[trigger] components(relative@)[k - 1] is Normal
                ==> symlink_answer(is_symlink, joined_prefix(root@, components(relative@), k), Ok(false)),
        res matches Err(SandboxError::NotProjectRelative { path }) ==> !project_relative(relative@),
        project_relative(relative@) && (forall|k: int| 0 <= k < components(relative@).len() ==> !(
        #[trigger] components(relative@)[k] is Normal)) ==> (res matches Ok(p) && p@ == join_path(root@, relative@)),
        res matches Err(SandboxError::ThroughSymlink { path }) ==> path@ == relative@ && project_relative(relative@)
            && exists|k: int| 1 <= k <= components(relative@).len() && symlink_answer(
                is_symlink,
                #[trigger] joined_prefix(root@, components(relative@), k),
                Ok(true),
            ),
        res matches Err(SandboxError::Io { operation, path, message }) ==> project_relative(relative@)
            && exists|k: int| 1 <= k <= components(relative@).len() && path@ == #[trigger] joined_prefix(root@, components(relative@), k)
                && symlink_answer(is_symlink, path@, Err(message)),
        res matches Err(SandboxError::EscapesRoot { path }) ==> false,
{
    match validate_relative(relative) {
        Err(e) => {
            return Err(e);
        },
        Ok(()) => {},
    }
    let comps = path_components(relative);
    let ghost cs = components(relative@);
    proof {
        assert(comps@.map_values(|c: PathComponent| c@).len() == comps@.len());
        assert forall|j: int| 0 <= j < comps@.len() implies #[trigger] comps@[j]@ == cs[j] by {
            assert(comps@.map_values(|c: PathComponent| c@)[j] == comps@[j]@);
        }
    }
    let mut candidate = root.to_owned();
    let mut i: usize = 0;
    while i < comps.len()
        invariant
            i <= comps@.len(),
            comps@.len() == cs.len(),
            cs == components(relative@),
            forall|j: int| 0 <= j < comps@.len() ==> #[trigger] comps@[j]@ == cs[j],
            forall|p: &str| is_symlink.requires((p,)),
            project_relative(relative@),
            candidate@ == joined_prefix(root@, cs, i as int),
            forall|k: int| 1 <= k <= i && #[trigger] cs[k - 1] is Normal ==> symlink_answer(
                is_symlink,
                joined_prefix(root@, cs, k),
                Ok(false),
            ),
        decreases comps.len() - i,
    {
        assert(comps@[i as int]@ == cs[i as int]);
        match &comps[i] {
            PathComponent::Normal(segment) => {
                candidate = join(candidate.as_str(), segment.as_str());
                assert(candidate@ == joined_prefix(root@, cs, i + 1));
                let probe = candidate.as_str();
                let answer = is_symlink(probe);
                assert(is_symlink.ensures((probe,), answer));
                match answer {
                    Ok(true) => {
                        assert(symlink_answer(is_symlink, joined_prefix(root@, cs, i + 1), Ok(true)));
                        return Err(SandboxError::ThroughSymlink { path: relative.to_owned() });
                    },
                    Ok(false) => {
                        assert(symlink_answer(is_symlink, joined_prefix(root@, cs, i + 1), Ok(false)));
                    },
                    Err(message) => {
                        assert(symlink_answer(is_symlink, joined_prefix(root@, cs, i + 1), Err(message)));
                        return Err(SandboxError::Io {
                            operation: String::from_str("inspect sandbox path component"),
                            path: candidate.clone(),
                            message,
                        });
                    },
                }
            },
            _ => {},
        }
        i += 1;
    }
    Ok(join(root, relative))
}

} // verus!
