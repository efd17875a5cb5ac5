//! Containment checks: before anything is moved, or moved back, every path
//! involved must lie below the root it belongs to, and every folder on the
//! way that already exists must resolve (through links) below that root.
//!
//! What is on disk reaches these checks through two probes the caller
//! supplies: `present` (does a path exist?) and `resolve` (the canonical form
//! of an existing path, or the system's message when it cannot be had).
use vstd::prelude::*;
use crate::error::{ErrorView, Result, SortSmithError};
use crate::models::{OperationJournal, OperationView, PreviewResult, entries_view, operations_view};
use crate::paths::{FsPath, PathView, starts_with_path, strip_prefix_of};
use crate::text::copy_string;

verus! {

/// `p` lies below `root` and what is left after the root names no parent,
/// root or prefix component.
pub open spec fn contained(p: PathView, root: PathView) -> bool {
    strip_prefix_of(p, root) matches Some(rel) && !rel.escapes()
}

/// The `resolve` probe answered that `p` resolves to `q`.
pub open spec fn resolves_to<R: Fn(&FsPath) -> std::result::Result<FsPath, String>>(
    resolve: R,
    p: PathView,
    q: PathView,
) -> bool {
    exists|a: FsPath, b: FsPath| a@ == p && b@ == q && #[trigger] resolve.ensures((&a,), Ok(b))
}

/// The `resolve` probe answered that `p` resolves to a path below `root`.
pub open spec fn resolves_inside<R: Fn(&FsPath) -> std::result::Result<FsPath, String>>(
    resolve: R,
    p: PathView,
    root: PathView,
) -> bool {
    exists|q: PathView| resolves_to(resolve, p, q) && starts_with_path(q, root)
}

/// The `resolve` probe answered for `p` with the failure `message`.
pub open spec fn resolve_failed<R: Fn(&FsPath) -> std::result::Result<FsPath, String>>(
    resolve: R,
    p: PathView,
    message: Seq<char>,
) -> bool {
    exists|a: FsPath, m: String| a@ == p && m@ == message && #[trigger] resolve.ensures((&a,), Err(m))
}

/// The `resolve` probe refused `p`: it could not resolve it, or resolved it
/// outside `root`.
pub open spec fn refused_at<R: Fn(&FsPath) -> std::result::Result<FsPath, String>>(
    resolve: R,
    p: PathView,
    root: PathView,
) -> bool {
    ||| exists|m: Seq<char>| resolve_failed(resolve, p, m)
    ||| exists|q: PathView| resolves_to(resolve, p, q) && !starts_with_path(q, root)
}

/// The `resolve` probe refused some path.
pub open spec fn refused_somewhere<R: Fn(&FsPath) -> std::result::Result<FsPath, String>>(
    resolve: R,
    root: PathView,
) -> bool {
    exists|p: PathView| #[trigger] refused_at(resolve, p, root)
}

/// The `present` probe answered that nothing is at `p`.
pub open spec fn reported_absent<E: Fn(&FsPath) -> bool>(present: E, p: PathView) -> bool {
    exists|a: FsPath| a@ == p && #[trigger] present.ensures((&a,), false)
}

/// How the folders above a planned path resolved.
#[derive(Clone, Debug, PartialEq, Eq)]
pub enum AncestorCheck {
    /// Every existing folder resolved below the root; the innermost one is
    /// given, resolved.
    Inside(FsPath),
    /// A folder resolved outside the root.
    Outside,
    /// A folder exists but could not be resolved.
    Unreadable { path: FsPath, message: String },
}

proof fn lemma_push_keeps_prefix(p: PathView, base: PathView, n: Seq<char>)
    requires
        starts_with_path(p, base),
    ensures
        starts_with_path(PathView { names: p.names.push(n), ..p }, base),
{
    if !base.is_empty() {
        assert(p.names.push(n).take(base.names.len() as int) =~= p.names.take(
            base.names.len() as int,
        ));
    }
}

/// The folders walked for a path `relative` to a root: the names of its
/// parent, in order.
pub open spec fn walk_names(relative: PathView) -> Seq<Seq<char>> {
    if relative.names.len() > 0 {
        relative.names.drop_last()
    } else {
        Seq::empty()
    }
}

/// The folder `name` inside `p`.
pub open spec fn next_folder(p: PathView, name: Seq<char>) -> PathView {
    PathView { names: p.names.push(name), ..p }
}

/// One step of the walk below `root`, from the folder `from` into `name`:
/// the probe reported that folder absent and the walk goes on from it as
/// named, or the probe resolved it to `to`, below `root`, and the walk goes
/// on from there.
pub open spec fn folder_step<E: Fn(&FsPath) -> bool, R: Fn(&FsPath) -> std::result::Result<FsPath, String>>(
    present: E,
    resolve: R,
    root: PathView,
    from: PathView,
    name: Seq<char>,
    to: PathView,
) -> bool {
    ||| reported_absent(present, next_folder(from, name)) && to == next_folder(from, name)
    ||| resolves_to(resolve, next_folder(from, name), to) && starts_with_path(to, root)
}

/// `chain` is the walk below `root` through the first `k` of `names`: it
/// starts at `root`, and each folder comes from the one before by a step.
pub open spec fn walked_to<E: Fn(&FsPath) -> bool, R: Fn(&FsPath) -> std::result::Result<FsPath, String>>(
    present: E,
    resolve: R,
    root: PathView,
    names: Seq<Seq<char>>,
    chain: Seq<PathView>,
    k: int,
) -> bool {
    &&& 0 <= k <= names.len()
    &&& chain.len() == k + 1
    &&& chain[0] == root
    &&& forall|j: int| 0 <= j < k ==> #[trigger] folder_step(present, resolve, root, chain[j], names[j], chain[j + 1])
}

/// Every folder above the path `relative` to `root` is absent or resolves
/// below `root`, the walk going on from each resolved folder.
pub open spec fn ancestors_stay_inside<E: Fn(&FsPath) -> bool, R: Fn(&FsPath) -> std::result::Result<FsPath, String>>(
    present: E,
    resolve: R,
    root: PathView,
    relative: PathView,
) -> bool {
    exists|chain: Seq<PathView>|
        #[trigger] walked_to(present, resolve, root, walk_names(relative), chain, walk_names(relative).len() as int)
}

/// Walks the folders of `relative`'s parent from `root` down. Each folder
/// that exists is resolved and must stay below `root`; the walk goes on from
/// the resolved folder.
pub fn check_ancestors<E, R>(root: &FsPath, relative: &FsPath, present: &E, resolve: &R) -> (r:
    AncestorCheck) where
    E: Fn(&FsPath) -> bool,
    R: Fn(&FsPath) -> std::result::Result<FsPath, String>,

    requires
        forall|p: &FsPath| present.requires((p,)),
        forall|p: &FsPath| resolve.requires((p,)),
    ensures
        r matches AncestorCheck::Inside(c) ==> starts_with_path(c@, root@) && exists|chain: Seq<PathView>|
            #[trigger] walked_to(
                *present,
                *resolve,
                root@,
                walk_names(relative@),
                chain,
                walk_names(relative@).len() as int,
            ) && c@ == chain.last(),
        r is Outside ==> exists|chain: Seq<PathView>, k: int|
            #[trigger] walked_to(*present, *resolve, root@, walk_names(relative@), chain, k) && k < walk_names(
                relative@,
            ).len() && exists|q: PathView|
                resolves_to(*resolve, next_folder(chain[k], walk_names(relative@)[k]), q)
                    && !starts_with_path(q, root@),
        r matches AncestorCheck::Unreadable { path, message } ==> exists|chain: Seq<PathView>, k: int|
            #[trigger] walked_to(*present, *resolve, root@, walk_names(relative@), chain, k) && k < walk_names(
                relative@,
            ).len() && path@ == next_folder(chain[k], walk_names(relative@)[k]) && resolve_failed(
                *resolve,
                path@,
                message@,
            ),
        relative@.names.len() <= 1 ==> (r matches AncestorCheck::Inside(c) && c@ == root@),
        !(r is Inside) ==> refused_somewhere(*resolve, root@),
{
    let mut current = root.duplicate();
    let count: usize = if relative.names.len() > 0 {
        relative.names.len() - 1
    } else {
        0
    };
    let ghost names = walk_names(relative@);
    let ghost mut chain: Seq<PathView> = seq![root@];
    let mut i: usize = 0;
    assert(starts_with_path(root@, root@)) by {
        if !root@.is_empty() {
            assert(root@.names.take(root@.names.len() as int) =~= root@.names);
        }
    }
    assert(names.len() == count);
    while i < count
        invariant
            i <= count,
            count <= relative.names.len(),
            names == walk_names(relative@),
            names.len() == count,
            relative@.names.len() <= 1 ==> count == 0,
            i == 0 ==> current@ == root@,
            starts_with_path(current@, root@),
            walked_to(*present, *resolve, root@, names, chain, i as int),
            current@ == chain.last(),
            forall|p: &FsPath| present.requires((p,)),
            forall|p: &FsPath| resolve.requires((p,)),
        decreases count - i,
    {
        let name = copy_string(&relative.names[i]);
        let ghost before = current@;
        current.names.push(name);
        proof {
            assert(current@.names =~= before.names.push(name@));
            assert(names[i as int] == relative@.names[i as int]);
            assert(relative@.names[i as int] == relative.names@[i as int]@);
            assert(current@ == next_folder(before, names[i as int]));
            lemma_push_keeps_prefix(before, root@, name@);
        }
        let exists_here = present(&current);
        let ghost next = current@;
        if exists_here {
            match resolve(&current) {
                Err(message) => {
                    proof {
                        assert(resolve.ensures((&current,), Err(message)));
                        assert(resolve_failed(*resolve, current@, message@));
                        assert(refused_at(*resolve, current@, root@));
                        assert(walked_to(*present, *resolve, root@, names, chain, i as int));
                    }
                    return AncestorCheck::Unreadable { path: current, message };
                },
                Ok(resolved) => {
                    if !resolved.starts_with(root) {
                        proof {
                            assert(resolve.ensures((&current,), Ok(resolved)));
                            assert(resolves_to(*resolve, current@, resolved@));
                            assert(refused_at(*resolve, current@, root@));
                            assert(walked_to(*present, *resolve, root@, names, chain, i as int));
                        }
                        return AncestorCheck::Outside;
                    }
                    proof {
                        assert(resolve.ensures((&current,), Ok(resolved)));
                        assert(resolves_to(*resolve, next, resolved@));
                    }
                    current = resolved;
                },
            }
        } else {
            proof {
                assert(present.ensures((&current,), false));
                assert(reported_absent(*present, next));
            }
        }
        proof {
            let old_chain = chain;
            chain = chain.push(current@);
            assert(folder_step(*present, *resolve, root@, old_chain[i as int], names[i as int], chain[i + 1]));
            assert forall|j: int| 0 <= j < i + 1 implies #[trigger] folder_step(
                *present,
                *resolve,
                root@,
                chain[j],
                names[j],
                chain[j + 1],
            ) by {
                if j < i {
                    assert(chain[j] == old_chain[j] && chain[j + 1] == old_chain[j + 1]);
                }
            }
        }
        i += 1;
    }
    proof {
        assert(walked_to(*present, *resolve, root@, names, chain, count as int));
    }
    AncestorCheck::Inside(current)
}

/// A journal path is safe below the resolved root `c`: it lies below `c`,
/// naming no parent component, and either the probe resolved it below `c`,
/// or it is absent and every folder above it is absent or resolves below
/// `c`.
pub open spec fn journal_path_safe<E: Fn(&FsPath) -> bool, R: Fn(&FsPath) -> std::result::Result<FsPath, String>>(
    present: E,
    resolve: R,
    c: PathView,
    p: PathView,
) -> bool {
    &&& contained(p, c)
    &&& resolves_inside(resolve, p, c) || (reported_absent(present, p) && ancestors_stay_inside(
        present,
        resolve,
        c,
        strip_prefix_of(p, c)->0,
    ))
}

/// An undo-journal path is safe when it lies below the canonical root, names
/// no parent component, and either exists and resolves below the root or
/// does not exist and every existing folder above it resolves below the root.
pub fn safe_journal_path<E, R>(canonical_root: &FsPath, path: &FsPath, present: &E, resolve: &R) -> (r:
    bool) where
    E: Fn(&FsPath) -> bool,
    R: Fn(&FsPath) -> std::result::Result<FsPath, String>,

    requires
        forall|p: &FsPath| present.requires((p,)),
        forall|p: &FsPath| resolve.requires((p,)),
    ensures
        r ==> journal_path_safe(*present, *resolve, canonical_root@, path@),
        !r ==> !contained(path@, canonical_root@) || refused_at(*resolve, path@, canonical_root@)
            || (reported_absent(*present, path@) && refused_somewhere(*resolve, canonical_root@)),
{
    let relative = match path.strip_prefix(canonical_root) {
        None => return false,
        Some(rel) => rel,
    };
    if relative.escapes() {
        return false;
    }
    if present(path) {
        return match resolve(path) {
            Ok(resolved) => {
                let inside = resolved.starts_with(canonical_root);
                proof {
                    assert(resolve.ensures((path,), Ok(resolved)));
                    assert(resolves_to(*resolve, path@, resolved@));
                }
                inside
            },
            Err(m) => {
                proof {
                    assert(resolve.ensures((path,), Err(m)));
                    assert(resolve_failed(*resolve, path@, m@));
                }
                false
            },
        };
    }
    proof {
        assert(present.ensures((path,), false));
        assert(reported_absent(*present, path@));
    }
    match check_ancestors(canonical_root, &relative, present, resolve) {
        AncestorCheck::Inside(_) => true,
        _ => false,
    }
}

/// A recorded path is refused below the resolved root `c`: it is not below
/// it (or names a parent component), or the probe refused it, or it is
/// absent and the probe refused a folder on the way.
pub open spec fn journal_path_refused<E: Fn(&FsPath) -> bool, R: Fn(&FsPath) -> std::result::Result<FsPath, String>>(
    present: E,
    resolve: R,
    c: PathView,
    p: PathView,
) -> bool {
    ||| !contained(p, c)
    ||| refused_at(resolve, p, c)
    ||| reported_absent(present, p) && refused_somewhere(resolve, c)
}

/// Before an undo: the journal's root must resolve, and every recorded path
/// must be a safe journal path below it.
pub fn validate_journal_paths<E, R>(journal: &OperationJournal, present: &E, resolve: &R) -> (r:
    Result<()>) where
    E: Fn(&FsPath) -> bool,
    R: Fn(&FsPath) -> std::result::Result<FsPath, String>,

    requires
        forall|p: &FsPath| present.requires((p,)),
        forall|p: &FsPath| resolve.requires((p,)),
    ensures
        r is Ok ==> exists|c: PathView|
            resolves_to(*resolve, journal.root@, c) && forall|i: int|
                0 <= i < journal.entries.len() ==> journal_path_safe(
                    *present,
                    *resolve,
                    c,
                    (#[trigger] entries_view(journal.entries@)[i]).from,
                ) && journal_path_safe(*present, *resolve, c, entries_view(journal.entries@)[i].to),
        r matches Err(e) ==> (e@ matches ErrorView::Io { path, message } && path
            == journal.root@ && resolve_failed(*resolve, path, message)) || exists|c: PathView, i: int|
            #![trigger resolves_to(*resolve, journal.root@, c), entries_view(journal.entries@)[i]]
            resolves_to(*resolve, journal.root@, c) && 0 <= i < journal.entries.len() && e@
                == ErrorView::UnsafeDestination(entries_view(journal.entries@)[i].to) && (
            journal_path_refused(*present, *resolve, c, entries_view(journal.entries@)[i].from)
                || journal_path_refused(*present, *resolve, c, entries_view(journal.entries@)[i].to)),
{
    let canonical_root = match resolve(&journal.root) {
        Err(message) => {
            proof {
                assert(resolve.ensures((&journal.root,), Err(message)));
            }
            return Err(SortSmithError::Io { path: journal.root.duplicate(), message });
        },
        Ok(c) => c,
    };
    proof {
        assert(resolve.ensures((&journal.root,), Ok(canonical_root)));
        assert(resolves_to(*resolve, journal.root@, canonical_root@));
    }
    let mut i: usize = 0;
    while i < journal.entries.len()
        invariant
            i <= journal.entries.len(),
            forall|p: &FsPath| present.requires((p,)),
            forall|p: &FsPath| resolve.requires((p,)),
            resolves_to(*resolve, journal.root@, canonical_root@),
            forall|j: int|
                0 <= j < i ==> journal_path_safe(
                    *present,
                    *resolve,
                    canonical_root@,
                    (#[trigger] entries_view(journal.entries@)[j]).from,
                ) && journal_path_safe(*present, *resolve, canonical_root@, entries_view(journal.entries@)[j].to),
        decreases journal.entries.len() - i,
    {
        let entry = &journal.entries[i];
        assert(entries_view(journal.entries@)[i as int] == entry@);
        if !safe_journal_path(&canonical_root, &entry.from, present, resolve) || !safe_journal_path(
            &canonical_root,
            &entry.to,
            present,
            resolve,
        ) {
            proof {
                assert(journal_path_refused(*present, *resolve, canonical_root@, entry.from@)
                    || journal_path_refused(*present, *resolve, canonical_root@, entry.to@));
            }
            return Err(SortSmithError::UnsafeDestination(entry.to.duplicate()));
        }
        i += 1;
    }
    Ok(())
}

/// Why a preview's operation `op` was refused with `e`, below `root`
/// resolved to `c`: a probe failed to resolve a path; or the source does not
/// resolve below `c`; or the destination is not below `root` (or names a
/// parent component), or a folder on its way resolves outside `c`.
pub open spec fn operation_refused<R: Fn(&FsPath) -> std::result::Result<FsPath, String>>(
    resolve: R,
    root: PathView,
    c: PathView,
    op: OperationView,
    e: ErrorView,
) -> bool {
    ||| e matches ErrorView::Io { path, message } && resolve_failed(resolve, path, message)
    ||| e == ErrorView::UnsafeDestination(op.source) && refused_at(resolve, op.source, c)
    ||| e == ErrorView::UnsafeDestination(op.destination) && (!contained(op.destination, root)
        || refused_somewhere(resolve, c))
}

/// Every operation of the preview: its source resolves below the resolved
/// root, its destination lies below `root` naming no parent component, and
/// its destination's existing folders resolve below the resolved root.
pub fn validate_preview_paths<E, R>(root: &FsPath, preview: &PreviewResult, present: &E, resolve: &R) -> (r:
    Result<()>) where
    E: Fn(&FsPath) -> bool,
    R: Fn(&FsPath) -> std::result::Result<FsPath, String>,

    requires
        forall|p: &FsPath| present.requires((p,)),
        forall|p: &FsPath| resolve.requires((p,)),
    ensures
        r is Ok ==> forall|i: int|
            0 <= i < preview.operations.len() ==> contained(
                (#[trigger] operations_view(preview.operations@)[i]).destination,
                root@,
            ),
        r is Ok ==> exists|c: PathView|
            resolves_to(*resolve, root@, c) && forall|i: int|
                0 <= i < preview.operations.len() ==> resolves_inside(
                    *resolve,
                    (#[trigger] operations_view(preview.operations@)[i]).source,
                    c,
                ) && ancestors_stay_inside(
                    *present,
                    *resolve,
                    c,
                    strip_prefix_of(operations_view(preview.operations@)[i].destination, root@)->0,
                ),
        r matches Err(e) ==> (e@ matches ErrorView::Io { path, message } && path == root@
            && resolve_failed(*resolve, path, message)) || exists|c: PathView, i: int|
            resolves_to(*resolve, root@, c) && 0 <= i < preview.operations.len() && #[trigger] operation_refused(
                *resolve,
                root@,
                c,
                operations_view(preview.operations@)[i],
                e@,
            ),
{
    let canonical_root = match resolve(root) {
        Err(message) => {
            proof {
                assert(resolve.ensures((root,), Err(message)));
            }
            return Err(SortSmithError::Io { path: root.duplicate(), message });
        },
        Ok(c) => c,
    };
    proof {
        assert(resolve.ensures((root,), Ok(canonical_root)));
        assert(resolves_to(*resolve, root@, canonical_root@));
    }
    let mut i: usize = 0;
    while i < preview.operations.len()
        invariant
            i <= preview.operations.len(),
            forall|p: &FsPath| present.requires((p,)),
            forall|p: &FsPath| resolve.requires((p,)),
            resolves_to(*resolve, root@, canonical_root@),
            forall|j: int|
                0 <= j < i ==> contained(
                    (#[trigger] operations_view(preview.operations@)[j]).destination,
                    root@,
                ),
            forall|j: int|
                0 <= j < i ==> resolves_inside(
                    *resolve,
                    (#[trigger] operations_view(preview.operations@)[j]).source,
                    canonical_root@,
                ) && ancestors_stay_inside(
                    *present,
                    *resolve,
                    canonical_root@,
                    strip_prefix_of(operations_view(preview.operations@)[j].destination, root@)->0,
                ),
        decreases preview.operations.len() - i,
    {
        let op = &preview.operations[i];
        assert(operations_view(preview.operations@)[i as int] == op@);
        let canonical_source = match resolve(&op.source) {
            Err(message) => {
                proof {
                    assert(resolve.ensures((&op.source,), Err(message)));
                }
                proof {
                    assert(resolve_failed(*resolve, op.source@, message@));
                    assert(operation_refused(*resolve, root@, canonical_root@, op@, ErrorView::Io { path: op.source@, message: message@ }));
                }
                return Err(SortSmithError::Io { path: op.source.duplicate(), message });
            },
            Ok(c) => c,
        };
        proof {
            assert(resolve.ensures((&op.source,), Ok(canonical_source)));
            assert(resolves_to(*resolve, op.source@, canonical_source@));
        }
        if !canonical_source.starts_with(&canonical_root) {
            proof {
                assert(refused_at(*resolve, op.source@, canonical_root@));
                assert(operation_refused(*resolve, root@, canonical_root@, op@, ErrorView::UnsafeDestination(op.source@)));
            }
            return Err(SortSmithError::UnsafeDestination(op.source.duplicate()));
        }
        let relative = match op.destination.strip_prefix(root) {
            None => {
                proof {
                    assert(!contained(op.destination@, root@));
                    assert(operation_refused(*resolve, root@, canonical_root@, op@, ErrorView::UnsafeDestination(op.destination@)));
                }
                return Err(SortSmithError::UnsafeDestination(op.destination.duplicate()));
            },
            Some(rel) => rel,
        };
        if relative.escapes() {
            proof {
                assert(!contained(op.destination@, root@));
                assert(operation_refused(*resolve, root@, canonical_root@, op@, ErrorView::UnsafeDestination(op.destination@)));
            }
            return Err(SortSmithError::UnsafeDestination(op.destination.duplicate()));
        }
        match check_ancestors(&canonical_root, &relative, present, resolve) {
            AncestorCheck::Inside(_) => {},
            AncestorCheck::Outside => {
                proof {
                    assert(operation_refused(*resolve, root@, canonical_root@, op@, ErrorView::UnsafeDestination(op.destination@)));
                }
                return Err(SortSmithError::UnsafeDestination(op.destination.duplicate()));
            },
            AncestorCheck::Unreadable { path, message } => {
                proof {
                    assert(operation_refused(*resolve, root@, canonical_root@, op@, ErrorView::Io { path: path@, message: message@ }));
                }
                return Err(SortSmithError::Io { path, message });
            },
        }
        proof {
            assert(resolves_to(*resolve, operations_view(preview.operations@)[i as int].source, canonical_source@));
        }
        i += 1;
    }
    Ok(())
}

} // verus!
