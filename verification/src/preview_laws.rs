//! What every preview run guarantees of its planned moves, and why a
//! cached preview decides as an uncached one does.
use vstd::prelude::*;
use crate::containment::{refused_at, resolve_failed, resolves_inside, resolves_to};
use crate::engine::{
    PlanState, WalkItem, described_file, destinations, file_count, lemma_file_count_step, file_planned, first_match, has_age_criteria,
    law_first_match_ignores_time, paths_view, preview_run,
    previewed, searched_from, walk_step,
};
use crate::models::{OperationView, RuleView, Timestamp};
use crate::rules::destination_outcome;
use crate::paths::{FsPath, PathView, starts_with_path};
use crate::safety::{
    collision_candidate, collision_outcome, is_reserved_path, max_collision_index, open_path, blocked,
    reported_free, reported_taken, search_gave_up, law_collision_result_is_free,
};

verus! {

/// The `j`-th move leaves its source, and its destination is what the
/// collision search gave for some desired destination, against the moves
/// planned before it.
pub open spec fn move_searched<F: Fn(&FsPath) -> bool>(occupied: F, ops: Seq<OperationView>, j: int) -> bool {
    &&& ops[j].source != ops[j].destination
    &&& exists|desired: PathView| #[trigger] searched_from(occupied, ops.take(j), desired, Some(ops[j].destination))
}

/// Every move of `ops` was searched for against the moves before it.
pub open spec fn well_planned<F: Fn(&FsPath) -> bool>(occupied: F, ops: Seq<OperationView>) -> bool {
    forall|j: int| 0 <= j < ops.len() ==> #[trigger] move_searched(occupied, ops, j)
}

/// A step of a run keeps the moves, or adds one searched for against them.
proof fn lemma_step_moves<F: Fn(&FsPath) -> bool, R: Fn(&FsPath) -> std::result::Result<FsPath, String>, C: Fn() -> Timestamp>(
    rules: Seq<RuleView>,
    root: PathView,
    croot: PathView,
    follow: bool,
    occupied: F,
    resolve: R,
    clock: C,
    cached: bool,
    s: PlanState,
    item: WalkItem,
    t: PlanState,
)
    requires
        walk_step(rules, root, croot, follow, occupied, resolve, clock, cached, s, item, t),
        well_planned(occupied, s.ops),
    ensures
        well_planned(occupied, t.ops),
{
    if t.ops != s.ops {
        let op = t.ops.last();
        assert(t.ops == s.ops.push(op) && op.source != op.destination && exists|desired: PathView|
            searched_from(occupied, s.ops, desired, Some(op.destination)));
        assert forall|j: int| 0 <= j < t.ops.len() implies #[trigger] move_searched(occupied, t.ops, j) by {
            if j < s.ops.len() {
                assert(move_searched(occupied, s.ops, j));
                assert(t.ops.take(j) =~= s.ops.take(j));
                assert(t.ops[j] == s.ops[j]);
                let desired = choose|desired: PathView| #[trigger] searched_from(occupied, s.ops.take(j), desired, Some(s.ops[j].destination));
                assert(searched_from(occupied, t.ops.take(j), desired, Some(t.ops[j].destination)));
            } else {
                assert(t.ops.take(j) =~= s.ops);
                let desired = choose|desired: PathView| #[trigger] searched_from(occupied, s.ops, desired, Some(op.destination));
                assert(searched_from(occupied, t.ops.take(j), desired, Some(t.ops[j].destination)));
            }
        }
    }
}

/// Law: in every preview run, cached or not, each planned move leaves its
/// source for a destination that the collision search gave against the
/// moves planned before it.
pub proof fn law_previewed_moves_are_well_planned<F: Fn(&FsPath) -> bool, R: Fn(&FsPath) -> std::result::Result<FsPath, String>, C: Fn() -> Timestamp>(
    rules: Seq<RuleView>,
    root: PathView,
    follow: bool,
    occupied: F,
    resolve: R,
    clock: C,
    cached: bool,
    items: Seq<WalkItem>,
    last: PlanState,
)
    requires
        previewed(rules, root, follow, occupied, resolve, clock, cached, items, last),
    ensures
        well_planned(occupied, last.ops),
{
    let (croot, states) = choose|croot: PathView, states: Seq<PlanState>|
        resolves_to(resolve, root, croot) && #[trigger] preview_run(
            rules,
            root,
            croot,
            follow,
            occupied,
            resolve,
            clock,
            cached,
            items,
            states,
        ) && states.last() == last;
    lemma_run_moves(rules, root, croot, follow, occupied, resolve, clock, cached, items, states, items.len() as int);
}

proof fn lemma_run_moves<F: Fn(&FsPath) -> bool, R: Fn(&FsPath) -> std::result::Result<FsPath, String>, C: Fn() -> Timestamp>(
    rules: Seq<RuleView>,
    root: PathView,
    croot: PathView,
    follow: bool,
    occupied: F,
    resolve: R,
    clock: C,
    cached: bool,
    items: Seq<WalkItem>,
    states: Seq<PlanState>,
    n: int,
)
    requires
        preview_run(rules, root, croot, follow, occupied, resolve, clock, cached, items, states),
        0 <= n <= items.len(),
    ensures
        well_planned(occupied, states[n].ops),
    decreases n,
{
    if n == 0 {
        assert(states[0].ops.len() == 0);
    } else {
        lemma_run_moves(rules, root, croot, follow, occupied, resolve, clock, cached, items, states, n - 1);
        let m = n - 1;
        assert(walk_step(rules, root, croot, follow, occupied, resolve, clock, cached, states[m], items[m], states[m + 1]));
        lemma_step_moves(rules, root, croot, follow, occupied, resolve, clock, cached, states[m], items[m], states[m + 1]);
    }
}

/// Law: of well-planned moves, none stays where it is, each destination is
/// one the disk probe reported free, and no two moves share a destination.
pub proof fn law_well_planned_moves_differ<F: Fn(&FsPath) -> bool>(occupied: F, ops: Seq<OperationView>)
    requires
        well_planned(occupied, ops),
    ensures
        forall|j: int| 0 <= j < ops.len() ==> (#[trigger] ops[j]).source != ops[j].destination,
        forall|j: int| 0 <= j < ops.len() ==> reported_free(occupied, (#[trigger] ops[j]).destination),
        forall|i: int, j: int|
            0 <= i < j < ops.len() ==> (#[trigger] ops[i]).destination != (#[trigger] ops[j]).destination,
{
    assert forall|j: int| 0 <= j < ops.len() implies (#[trigger] ops[j]).source != ops[j].destination by {
        assert(move_searched(occupied, ops, j));
    }
    assert forall|j: int| 0 <= j < ops.len() implies reported_free(occupied, (#[trigger] ops[j]).destination) by {
        lemma_move_outcome(occupied, ops, j);
    }
    assert forall|i: int, j: int|
        0 <= i < j < ops.len() implies (#[trigger] ops[i]).destination != (#[trigger] ops[j]).destination by {
        lemma_move_outcome(occupied, ops, j);
        assert(ops.take(j)[i] == ops[i]);
    }
}

/// The `j`-th well-planned move's destination was reported free and is new.
proof fn lemma_move_outcome<F: Fn(&FsPath) -> bool>(occupied: F, ops: Seq<OperationView>, j: int)
    requires
        well_planned(occupied, ops),
        0 <= j < ops.len(),
    ensures
        reported_free(occupied, ops[j].destination),
        forall|i: int| 0 <= i < j ==> (#[trigger] ops.take(j)[i]).destination != ops[j].destination,
{
    assert(move_searched(occupied, ops, j));
    let earlier = ops.take(j);
    let d = ops[j].destination;
    let desired = choose|desired: PathView| #[trigger] searched_from(occupied, earlier, desired, Some(d));
    let rs = choose|rs: Seq<FsPath>| paths_view(rs) == destinations(earlier) && #[trigger] collision_outcome(occupied, rs, desired, Some(d));
    law_collision_result_is_free(occupied, rs, desired, d);
    assert(paths_view(rs).len() == rs.len());
    assert(destinations(earlier).len() == earlier.len());
    assert forall|i: int| 0 <= i < j implies (#[trigger] ops.take(j)[i]).destination != d by {
        assert(paths_view(rs)[i] == rs[i]@);
        assert(!(rs[i]@ == d));
        assert(destinations(earlier)[i] == earlier[i].destination);
    }
}

/// The disk probe never answers both that a path is free and that it is
/// taken: the disk does not change while it is asked.
pub open spec fn occupancy_consistent<F: Fn(&FsPath) -> bool>(occupied: F) -> bool {
    forall|p: PathView|
        #![trigger reported_free(occupied, p)]
        #![trigger reported_taken(occupied, p)]
        !(reported_free(occupied, p) && reported_taken(occupied, p))
}

/// The resolve probe gives each path at most one answer.
pub open spec fn resolution_consistent<R: Fn(&FsPath) -> std::result::Result<FsPath, String>>(resolve: R) -> bool {
    &&& forall|p: PathView, q1: PathView, q2: PathView|
        #![trigger resolves_to(resolve, p, q1), resolves_to(resolve, p, q2)]
        resolves_to(resolve, p, q1) && resolves_to(resolve, p, q2) ==> q1 == q2
    &&& forall|p: PathView, m: Seq<char>, q: PathView|
        #![trigger resolve_failed(resolve, p, m), resolves_to(resolve, p, q)]
        !(resolve_failed(resolve, p, m) && resolves_to(resolve, p, q))
}

/// Two moves with the same source, destination, rule and size.
pub open spec fn same_move(a: OperationView, b: OperationView) -> bool {
    &&& a.source == b.source
    &&& a.destination == b.destination
    &&& a.rule_id == b.rule_id
    &&& a.rule_name == b.rule_name
    &&& a.size == b.size
}

/// The same moves, in the same order (their ids aside).
pub open spec fn same_moves(a: Seq<OperationView>, b: Seq<OperationView>) -> bool {
    &&& a.len() == b.len()
    &&& forall|i: int| #![trigger a[i]] #![trigger b[i]] 0 <= i < a.len() ==> same_move(a[i], b[i])
}

/// No file's metadata failed to be read.
pub open spec fn no_metadata_failures(items: Seq<WalkItem>) -> bool {
    forall|i: int| 0 <= i < items.len() ==> !(#[trigger] items[i] is FileWithoutMetadata)
}

/// Two plans made the same decisions: the same moves, ignored count and
/// described files, and, with `errors`, the same messages.
pub open spec fn plans_agree(x: PlanState, y: PlanState, errors: bool) -> bool {
    &&& same_moves(x.ops, y.ops)
    &&& x.ignored == y.ignored
    &&& x.described == y.described
    &&& errors ==> x.errors == y.errors
}

proof fn lemma_open_not_blocked<F: Fn(&FsPath) -> bool>(
    occupied: F,
    rs1: Seq<FsPath>,
    rs2: Seq<FsPath>,
    q: PathView,
)
    requires
        paths_view(rs1) == paths_view(rs2),
        occupancy_consistent(occupied),
    ensures
        open_path(occupied, rs1, q) ==> !blocked(occupied, rs2, q),
        open_path(occupied, rs2, q) ==> !blocked(occupied, rs1, q),
{
    assert(paths_view(rs1).len() == rs1.len() && paths_view(rs2).len() == rs2.len());
    if is_reserved_path(rs1, q) {
        let i = choose|i: int| 0 <= i < rs1.len() && (#[trigger] rs1[i])@ == q;
        assert(paths_view(rs1)[i] == rs1[i]@ && paths_view(rs2)[i] == rs2[i]@);
        assert(is_reserved_path(rs2, q));
    }
    if is_reserved_path(rs2, q) {
        let i = choose|i: int| 0 <= i < rs2.len() && (#[trigger] rs2[i])@ == q;
        assert(paths_view(rs1)[i] == rs1[i]@ && paths_view(rs2)[i] == rs2[i]@);
        assert(is_reserved_path(rs1, q));
    }
    assert(!(reported_free(occupied, q) && reported_taken(occupied, q)));
}

/// A step of the search that found `d` at `k` against `rs`.
pub open spec fn found_at<F: Fn(&FsPath) -> bool>(
    occupied: F,
    rs: Seq<FsPath>,
    path: PathView,
    d: PathView,
    k: nat,
) -> bool {
    &&& 1 <= k <= max_collision_index()
    &&& d == collision_candidate(path, k)
    &&& open_path(occupied, rs, d)
    &&& forall|j: nat| 1 <= j < k ==> blocked(occupied, rs, #[trigger] collision_candidate(path, j))
}

proof fn lemma_found_unique<F: Fn(&FsPath) -> bool>(
    occupied: F,
    rs1: Seq<FsPath>,
    rs2: Seq<FsPath>,
    path: PathView,
    d1: PathView,
    d2: PathView,
    k1: nat,
    k2: nat,
)
    requires
        paths_view(rs1) == paths_view(rs2),
        occupancy_consistent(occupied),
        found_at(occupied, rs1, path, d1, k1),
        found_at(occupied, rs2, path, d2, k2),
    ensures
        d1 == d2,
{
    lemma_open_not_blocked(occupied, rs1, rs2, d1);
    lemma_open_not_blocked(occupied, rs1, rs2, d2);
    if k1 < k2 {
        assert(blocked(occupied, rs2, collision_candidate(path, k1)));
    } else if k2 < k1 {
        assert(blocked(occupied, rs1, collision_candidate(path, k2)));
    }
}

/// With a consistent disk probe, the collision search has one outcome for
/// the same reserved destinations.
proof fn lemma_search_unique<F: Fn(&FsPath) -> bool>(
    occupied: F,
    rs1: Seq<FsPath>,
    rs2: Seq<FsPath>,
    path: PathView,
    d1: Option<PathView>,
    d2: Option<PathView>,
)
    requires
        paths_view(rs1) == paths_view(rs2),
        occupancy_consistent(occupied),
        collision_outcome(occupied, rs1, path, d1),
        collision_outcome(occupied, rs2, path, d2),
    ensures
        d1 == d2,
{
    lemma_open_not_blocked(occupied, rs1, rs2, path);
    lemma_open_not_blocked(occupied, rs1, rs1, path);
    lemma_open_not_blocked(occupied, rs2, rs2, path);
    if d1 is Some && blocked(occupied, rs1, path) {
        let k1 = choose|k: nat|
            1 <= k <= max_collision_index() && d1 == Some(#[trigger] collision_candidate(path, k))
                && open_path(occupied, rs1, collision_candidate(path, k)) && forall|j: nat|
                1 <= j < k ==> blocked(occupied, rs1, #[trigger] collision_candidate(path, j));
        assert(found_at(occupied, rs1, path, d1->0, k1));
        lemma_open_not_blocked(occupied, rs1, rs2, d1->0);
        if d2 is Some && blocked(occupied, rs2, path) {
            let k2 = choose|k: nat|
                1 <= k <= max_collision_index() && d2 == Some(#[trigger] collision_candidate(path, k))
                    && open_path(occupied, rs2, collision_candidate(path, k)) && forall|j: nat|
                    1 <= j < k ==> blocked(occupied, rs2, #[trigger] collision_candidate(path, j));
            assert(found_at(occupied, rs2, path, d2->0, k2));
            lemma_found_unique(occupied, rs1, rs2, path, d1->0, d2->0, k1, k2);
        } else if d2 is None {
            assert(blocked(occupied, rs2, collision_candidate(path, k1)));
        }
    } else if d2 is Some && blocked(occupied, rs2, path) {
        let k2 = choose|k: nat|
            1 <= k <= max_collision_index() && d2 == Some(#[trigger] collision_candidate(path, k))
                && open_path(occupied, rs2, collision_candidate(path, k)) && forall|j: nat|
                1 <= j < k ==> blocked(occupied, rs2, #[trigger] collision_candidate(path, j));
        lemma_open_not_blocked(occupied, rs1, rs2, d2->0);
        if d1 is None {
            assert(blocked(occupied, rs1, collision_candidate(path, k2)));
        }
    }
}


proof fn lemma_searched_unique<F: Fn(&FsPath) -> bool>(
    occupied: F,
    ops1: Seq<OperationView>,
    ops2: Seq<OperationView>,
    desired: PathView,
    d1: Option<PathView>,
    d2: Option<PathView>,
)
    requires
        destinations(ops1) == destinations(ops2),
        occupancy_consistent(occupied),
        searched_from(occupied, ops1, desired, d1),
        searched_from(occupied, ops2, desired, d2),
    ensures
        d1 == d2,
{
    let rs1 = choose|rs: Seq<FsPath>| paths_view(rs) == destinations(ops1) && #[trigger] collision_outcome(occupied, rs, desired, d1);
    let rs2 = choose|rs: Seq<FsPath>| paths_view(rs) == destinations(ops2) && #[trigger] collision_outcome(occupied, rs, desired, d2);
    lemma_search_unique(occupied, rs1, rs2, desired, d1, d2);
}

proof fn lemma_same_destinations(a: Seq<OperationView>, b: Seq<OperationView>)
    requires
        same_moves(a, b),
    ensures
        destinations(a) == destinations(b),
{
    assert(destinations(a) =~= destinations(b)) by {
        assert forall|i: int| 0 <= i < a.len() implies destinations(a)[i] == destinations(b)[i] by {
            assert(same_move(a[i], b[i]));
        }
    }
}

proof fn lemma_refused_exclusive<R: Fn(&FsPath) -> std::result::Result<FsPath, String>>(
    resolve: R,
    p: PathView,
    croot: PathView,
)
    requires
        resolution_consistent(resolve),
    ensures
        !(refused_at(resolve, p, croot) && resolves_inside(resolve, p, croot)),
{
    if refused_at(resolve, p, croot) && resolves_inside(resolve, p, croot) {
        let q = choose|q: PathView| resolves_to(resolve, p, q) && starts_with_path(q, croot);
        if exists|m: Seq<char>| resolve_failed(resolve, p, m) {
            let m = choose|m: Seq<char>| resolve_failed(resolve, p, m);
            assert(!(resolve_failed(resolve, p, m) && resolves_to(resolve, p, q)));
        } else {
            let q2 = choose|q2: PathView| resolves_to(resolve, p, q2) && !starts_with_path(q2, croot);
            assert(q == q2);
        }
    }
}

proof fn lemma_push_same_moves(a: Seq<OperationView>, b: Seq<OperationView>, x: OperationView, y: OperationView)
    requires
        same_moves(a, b),
        same_move(x, y),
    ensures
        same_moves(a.push(x), b.push(y)),
{
    assert forall|i: int| 0 <= i < a.push(x).len() implies same_move(#[trigger] a.push(x)[i], b.push(y)[i]) by {
        if i < a.len() {
            assert(a.push(x)[i] == a[i] && b.push(y)[i] == b[i]);
            assert(same_move(a[i], b[i]));
        }
    }
}

/// The same item, taken from agreeing plans by an uncached and a cached
/// run, leads to agreeing plans.
proof fn lemma_step_agree<F: Fn(&FsPath) -> bool, R: Fn(&FsPath) -> std::result::Result<FsPath, String>, C: Fn() -> Timestamp>(
    rules: Seq<RuleView>,
    root: PathView,
    croot: PathView,
    follow: bool,
    occupied: F,
    resolve: R,
    clock: C,
    s1: PlanState,
    s2: PlanState,
    item: WalkItem,
    t1: PlanState,
    t2: PlanState,
    errors: bool,
)
    requires
        walk_step(rules, root, croot, follow, occupied, resolve, clock, false, s1, item, t1),
        walk_step(rules, root, croot, follow, occupied, resolve, clock, true, s2, item, t2),
        plans_agree(s1, s2, errors),
        errors ==> !(item is FileWithoutMetadata),
        occupancy_consistent(occupied),
        resolution_consistent(resolve),
        !has_age_criteria(rules),
    ensures
        plans_agree(t1, t2, errors),
{
    match item {
        WalkItem::Unreadable { kind } => {},
        WalkItem::FileWithoutMetadata { path, message, kind } => {
            lemma_refused_exclusive(resolve, path@, croot);
        },
        WalkItem::File { path, size, modified_at } => {
            lemma_refused_exclusive(resolve, path@, croot);
            let file = described_file(root, path@, size, modified_at);
            if !(follow && refused_at(resolve, path@, croot)) {
                let now1 = choose|now: Timestamp| #[trigger] file_planned(rules, root, occupied, s1, file, now, t1);
                let now2 = choose|now: Timestamp| #[trigger] file_planned(rules, root, occupied, s2, file, now, t2);
                law_first_match_ignores_time(rules, file, now1, now2);
                lemma_same_destinations(s1.ops, s2.ops);
                if let Some(k) = first_match(rules, file, now1) {
                    if let Ok(desired) = destination_outcome(root, file, rules[k as int]) {
                        let a1 = (searched_from(occupied, s1.ops, desired, Some(file.path)) || searched_from(
                            occupied,
                            s1.ops,
                            desired,
                            None,
                        )) && t1.ops == s1.ops && t1.ignored == s1.ignored + 1;
                        let a2 = (searched_from(occupied, s2.ops, desired, Some(file.path)) || searched_from(
                            occupied,
                            s2.ops,
                            desired,
                            None,
                        )) && t2.ops == s2.ops && t2.ignored == s2.ignored + 1;
                        let o1 = if searched_from(occupied, s1.ops, desired, Some(file.path)) {
                            Some(file.path)
                        } else {
                            None
                        };
                        let o2 = if searched_from(occupied, s2.ops, desired, Some(file.path)) {
                            Some(file.path)
                        } else {
                            None
                        };
                        if a1 && !a2 {
                            lemma_searched_unique(occupied, s1.ops, s2.ops, desired, o1, Some(t2.ops.last().destination));
                        } else if !a1 && a2 {
                            lemma_searched_unique(occupied, s1.ops, s2.ops, desired, Some(t1.ops.last().destination), o2);
                        } else if !a1 && !a2 {
                            lemma_searched_unique(
                                occupied,
                                s1.ops,
                                s2.ops,
                                desired,
                                Some(t1.ops.last().destination),
                                Some(t2.ops.last().destination),
                            );
                            lemma_push_same_moves(s1.ops, s2.ops, t1.ops.last(), t2.ops.last());
                        }
                    }
                }
            }
        },
    }
}

proof fn lemma_runs_agree<F: Fn(&FsPath) -> bool, R: Fn(&FsPath) -> std::result::Result<FsPath, String>, C: Fn() -> Timestamp>(
    rules: Seq<RuleView>,
    root: PathView,
    croot: PathView,
    follow: bool,
    occupied: F,
    resolve: R,
    clock: C,
    items: Seq<WalkItem>,
    states1: Seq<PlanState>,
    states2: Seq<PlanState>,
    n: int,
)
    requires
        preview_run(rules, root, croot, follow, occupied, resolve, clock, false, items, states1),
        preview_run(rules, root, croot, follow, occupied, resolve, clock, true, items, states2),
        0 <= n <= items.len(),
        occupancy_consistent(occupied),
        resolution_consistent(resolve),
        !has_age_criteria(rules),
    ensures
        plans_agree(states1[n], states2[n], no_metadata_failures(items)),
    decreases n,
{
    if n > 0 {
        lemma_runs_agree(rules, root, croot, follow, occupied, resolve, clock, items, states1, states2, n - 1);
        let m = n - 1;
        assert(walk_step(rules, root, croot, follow, occupied, resolve, clock, false, states1[m], items[m], states1[m + 1]));
        assert(walk_step(rules, root, croot, follow, occupied, resolve, clock, true, states2[m], items[m], states2[m + 1]));
        lemma_step_agree(
            rules,
            root,
            croot,
            follow,
            occupied,
            resolve,
            clock,
            states1[m],
            states2[m],
            items[m],
            states1[m + 1],
            states2[m + 1],
            no_metadata_failures(items),
        );
    } else {
        assert(same_moves(states1[0].ops, states2[0].ops));
    }
}

/// Law: with a disk and links that do not change while they are asked
/// about, and no rule that depends on the time, a cached preview makes the
/// same decisions as an uncached one over the same walk: the same moves
/// (source, destination, rule and size, in order), the same ignored count
/// and the same files described; and the same messages when no file's
/// metadata failed to be read.
pub proof fn law_cached_and_uncached_previews_agree<F: Fn(&FsPath) -> bool, R: Fn(&FsPath) -> std::result::Result<FsPath, String>, C: Fn() -> Timestamp>(
    rules: Seq<RuleView>,
    root: PathView,
    follow: bool,
    occupied: F,
    resolve: R,
    clock: C,
    items: Seq<WalkItem>,
    uncached: PlanState,
    cached: PlanState,
)
    requires
        previewed(rules, root, follow, occupied, resolve, clock, false, items, uncached),
        previewed(rules, root, follow, occupied, resolve, clock, true, items, cached),
        occupancy_consistent(occupied),
        resolution_consistent(resolve),
        !has_age_criteria(rules),
    ensures
        plans_agree(uncached, cached, no_metadata_failures(items)),
{
    let (c1, st1) = choose|croot: PathView, states: Seq<PlanState>|
        resolves_to(resolve, root, croot) && #[trigger] preview_run(
            rules,
            root,
            croot,
            follow,
            occupied,
            resolve,
            clock,
            false,
            items,
            states,
        ) && states.last() == uncached;
    let (c2, st2) = choose|croot: PathView, states: Seq<PlanState>|
        resolves_to(resolve, root, croot) && #[trigger] preview_run(
            rules,
            root,
            croot,
            follow,
            occupied,
            resolve,
            clock,
            true,
            items,
            states,
        ) && states.last() == cached;
    assert(c1 == c2);
    lemma_runs_agree(rules, root, c1, follow, occupied, resolve, clock, items, st1, st2, items.len() as int);
}

proof fn lemma_run_counts<F: Fn(&FsPath) -> bool, R: Fn(&FsPath) -> std::result::Result<FsPath, String>, C: Fn() -> Timestamp>(
    rules: Seq<RuleView>,
    root: PathView,
    croot: PathView,
    follow: bool,
    occupied: F,
    resolve: R,
    clock: C,
    cached: bool,
    items: Seq<WalkItem>,
    states: Seq<PlanState>,
    n: int,
)
    requires
        preview_run(rules, root, croot, follow, occupied, resolve, clock, cached, items, states),
        0 <= n <= items.len(),
    ensures
        states[n].ops.len() + states[n].ignored <= file_count(items.take(n)),
        no_metadata_failures(items) ==> states[n].ops.len() + states[n].ignored == file_count(items.take(n)),
    decreases n,
{
    if n == 0 {
        assert(items.take(0).len() == 0);
        assert(states[0].ops.len() == 0);
    } else {
        let m = n - 1;
        lemma_run_counts(rules, root, croot, follow, occupied, resolve, clock, cached, items, states, m);
        lemma_file_count_step(items, m);
        assert(walk_step(rules, root, croot, follow, occupied, resolve, clock, cached, states[m], items[m], states[m + 1]));
        if let WalkItem::File { path, size, modified_at } = items[m] {
            if !(follow && refused_at(resolve, path@, croot) && states[m + 1] == crate::engine::skipped(states[m])) {
                let file = described_file(root, path@, size, modified_at);
                let now = choose|now: Timestamp|
                    clock.ensures((), now) && #[trigger] file_planned(rules, root, occupied, states[m], file, now, states[m + 1]);
                assert(file_planned(rules, root, occupied, states[m], file, now, states[m + 1]));
            }
        }
        if no_metadata_failures(items) {
            assert(!(items[m] is FileWithoutMetadata));
        }
    }
}

/// Law: a preview decides each file it scanned at most once: its moves and
/// its ignored files together are at most the files the walk reported, and
/// exactly those when no file's metadata failed to be read.
pub proof fn law_every_scanned_file_is_decided<F: Fn(&FsPath) -> bool, R: Fn(&FsPath) -> std::result::Result<FsPath, String>, C: Fn() -> Timestamp>(
    rules: Seq<RuleView>,
    root: PathView,
    follow: bool,
    occupied: F,
    resolve: R,
    clock: C,
    cached: bool,
    items: Seq<WalkItem>,
    last: PlanState,
)
    requires
        previewed(rules, root, follow, occupied, resolve, clock, cached, items, last),
    ensures
        last.ops.len() + last.ignored <= file_count(items),
        no_metadata_failures(items) ==> last.ops.len() + last.ignored == file_count(items),
{
    let (croot, states) = choose|croot: PathView, states: Seq<PlanState>|
        resolves_to(resolve, root, croot) && #[trigger] preview_run(
            rules,
            root,
            croot,
            follow,
            occupied,
            resolve,
            clock,
            cached,
            items,
            states,
        ) && states.last() == last;
    lemma_run_counts(rules, root, croot, follow, occupied, resolve, clock, cached, items, states, items.len() as int);
    assert(items.take(items.len() as int) =~= items);
}

/// The move `op` is the walked `item`'s file moved by the first of `rules`
/// that matches it at `now`, a reading of the clock, with its size.
pub open spec fn move_by_first_rule<C: Fn() -> Timestamp>(
    rules: Seq<RuleView>,
    root: PathView,
    clock: C,
    item: WalkItem,
    now: Timestamp,
    op: OperationView,
) -> bool {
    match item {
        WalkItem::File { path, size, modified_at } => {
            &&& clock.ensures((), now)
            &&& op.source == path@
            &&& op.size == size
            &&& first_match(rules, described_file(root, path@, size, modified_at), now) matches Some(k)
                && k < rules.len() && op.rule_id == rules[k as int].id && op.rule_name == rules[k as int].name
        },
        _ => false,
    }
}

/// The move `op` comes from one of the first `n` walked items.
pub open spec fn move_from_walk<C: Fn() -> Timestamp>(
    rules: Seq<RuleView>,
    root: PathView,
    clock: C,
    items: Seq<WalkItem>,
    n: int,
    op: OperationView,
) -> bool {
    exists|j: int, now: Timestamp| 0 <= j < n && #[trigger] move_by_first_rule(rules, root, clock, items[j], now, op)
}

/// Every move of `ops` comes from one of the first `n` walked items.
pub open spec fn moves_from_walk<C: Fn() -> Timestamp>(
    rules: Seq<RuleView>,
    root: PathView,
    clock: C,
    items: Seq<WalkItem>,
    n: int,
    ops: Seq<OperationView>,
) -> bool {
    forall|i: int| 0 <= i < ops.len() ==> #[trigger] move_from_walk(rules, root, clock, items, n, ops[i])
}

proof fn lemma_step_from_walk<F: Fn(&FsPath) -> bool, R: Fn(&FsPath) -> std::result::Result<FsPath, String>, C: Fn() -> Timestamp>(
    rules: Seq<RuleView>,
    root: PathView,
    croot: PathView,
    follow: bool,
    occupied: F,
    resolve: R,
    clock: C,
    cached: bool,
    items: Seq<WalkItem>,
    s: PlanState,
    t: PlanState,
    m: int,
)
    requires
        0 <= m < items.len(),
        walk_step(rules, root, croot, follow, occupied, resolve, clock, cached, s, items[m], t),
        moves_from_walk(rules, root, clock, items, m, s.ops),
    ensures
        moves_from_walk(rules, root, clock, items, m + 1, t.ops),
{
    let mut found = false;
    let mut fresh_now = Timestamp { secs: 0, nanos: 0 };
    if t.ops != s.ops {
        if let WalkItem::File { path, size, modified_at } = items[m] {
            let file = described_file(root, path@, size, modified_at);
            let now = choose|now: Timestamp|
                clock.ensures((), now) && #[trigger] file_planned(rules, root, occupied, s, file, now, t);
            assert(file_planned(rules, root, occupied, s, file, now, t));
            crate::engine::lemma_first_match_bound(rules, file, now);
            assert(t.ops == s.ops.push(t.ops.last()));
            assert(move_by_first_rule(rules, root, clock, items[m], now, t.ops.last()));
            found = true;
            fresh_now = now;
        }
    }
    assert(t.ops == s.ops || (t.ops == s.ops.push(t.ops.last()) && found && move_by_first_rule(
        rules,
        root,
        clock,
        items[m],
        fresh_now,
        t.ops.last(),
    )));
    assert forall|i: int| 0 <= i < t.ops.len() implies #[trigger] move_from_walk(
        rules,
        root,
        clock,
        items,
        m + 1,
        t.ops[i],
    ) by {
        if i < s.ops.len() {
            assert(t.ops[i] == s.ops[i]);
            assert(move_from_walk(rules, root, clock, items, m, s.ops[i]));
            let (j, now2) = choose|j: int, now2: Timestamp|
                0 <= j < m && #[trigger] move_by_first_rule(rules, root, clock, items[j], now2, s.ops[i]);
            assert(move_by_first_rule(rules, root, clock, items[j], now2, t.ops[i]));
        } else {
            assert(move_by_first_rule(rules, root, clock, items[m], fresh_now, t.ops[i]));
        }
    }
}

proof fn lemma_run_moves_from_walk<F: Fn(&FsPath) -> bool, R: Fn(&FsPath) -> std::result::Result<FsPath, String>, C: Fn() -> Timestamp>(
    rules: Seq<RuleView>,
    root: PathView,
    croot: PathView,
    follow: bool,
    occupied: F,
    resolve: R,
    clock: C,
    cached: bool,
    items: Seq<WalkItem>,
    states: Seq<PlanState>,
    n: int,
)
    requires
        preview_run(rules, root, croot, follow, occupied, resolve, clock, cached, items, states),
        0 <= n <= items.len(),
    ensures
        moves_from_walk(rules, root, clock, items, n, states[n].ops),
    decreases n,
{
    if n == 0 {
        assert(states[0].ops.len() == 0);
    } else {
        let m = n - 1;
        lemma_run_moves_from_walk(rules, root, croot, follow, occupied, resolve, clock, cached, items, states, m);
        assert(walk_step(rules, root, croot, follow, occupied, resolve, clock, cached, states[m], items[m], states[m + 1]));
        lemma_step_from_walk(rules, root, croot, follow, occupied, resolve, clock, cached, items, states[m], states[m + 1], m);
    }
}

/// Law: every move a preview plans, cached or not, is a file the walk
/// reported, moved by the first enabled rule that matches its description
/// at a reading of the clock, and records that rule and the file's size.
pub proof fn law_moves_follow_first_matching_rule<F: Fn(&FsPath) -> bool, R: Fn(&FsPath) -> std::result::Result<FsPath, String>, C: Fn() -> Timestamp>(
    rules: Seq<RuleView>,
    root: PathView,
    follow: bool,
    occupied: F,
    resolve: R,
    clock: C,
    cached: bool,
    items: Seq<WalkItem>,
    last: PlanState,
)
    requires
        previewed(rules, root, follow, occupied, resolve, clock, cached, items, last),
    ensures
        moves_from_walk(rules, root, clock, items, items.len() as int, last.ops),
{
    let (croot, states) = choose|croot: PathView, states: Seq<PlanState>|
        resolves_to(resolve, root, croot) && #[trigger] preview_run(
            rules,
            root,
            croot,
            follow,
            occupied,
            resolve,
            clock,
            cached,
            items,
            states,
        ) && states.last() == last;
    lemma_run_moves_from_walk(rules, root, croot, follow, occupied, resolve, clock, cached, items, states, items.len() as int);
}

} // verus!
