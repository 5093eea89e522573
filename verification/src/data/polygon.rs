//! Joining unordered paths that share end points into chains.
//!
//! The input is a list of paths, each with at least one point. The first path
//! opens the first chain. A chain grows at its far end: the next path is the
//! first one in the list, other than the path just placed, that has the far
//! end as one of its two end points. It is walked backwards where it arrives
//! by its last point. Where there is no such path, or where it has been
//! placed already, the chain is closed and the first path not yet placed
//! opens the next chain.

use vstd::prelude::*;
use vstd::seq_lib::seq_to_set_is_finite;
use crate::data::semantic::{Area, AreaType, MapCoords, Path};
use crate::errors::{Error, ErrorKind, Result};

verus! {

/// One path of the input as it is placed in the output: which path, whether
/// it is walked backwards, and whether it opens a new chain.
pub struct Step {
    pub index: int,
    pub reversed: bool,
    pub opens: bool,
}

/// The paths of a list as sequences of points.
pub open spec fn views(paths: Seq<Vec<MapCoords>>) -> Seq<Seq<MapCoords>> {
    Seq::new(paths.len(), |i: int| paths[i]@)
}

/// There is at least one path and every path has at least one point.
pub open spec fn well_formed(ps: Seq<Seq<MapCoords>>) -> bool {
    &&& ps.len() > 0
    &&& forall|i: int| 0 <= i < ps.len() ==> (#[trigger] ps[i]).len() > 0
}

/// `c` is the first or the last point of `p`.
pub open spec fn touches(p: Seq<MapCoords>, c: MapCoords) -> bool {
    p.first() == c || p.last() == c
}

/// The points of the path that a step places, in the order in which the step
/// walks them.
pub open spec fn oriented(ps: Seq<Seq<MapCoords>>, s: Step) -> Seq<MapCoords> {
    if s.reversed {
        ps[s.index].reverse()
    } else {
        ps[s.index]
    }
}

/// The point at which a step leaves its path.
pub open spec fn far_end(ps: Seq<Seq<MapCoords>>, s: Step) -> MapCoords {
    if s.reversed {
        ps[s.index].first()
    } else {
        ps[s.index].last()
    }
}

/// Path `j` has been placed by one of the steps.
pub open spec fn placed(order: Seq<Step>, j: int) -> bool {
    exists|k: int| 0 <= k < order.len() && (#[trigger] order[k]).index == j
}

/// The first path at or after `from`, other than `cur`, that touches `c`;
/// the number of paths where there is none.
pub open spec fn candidate_from(ps: Seq<Seq<MapCoords>>, cur: int, c: MapCoords, from: int) -> int
    decreases ps.len() - from,
{
    if from >= ps.len() {
        ps.len() as int
    } else if from != cur && touches(ps[from], c) {
        from
    } else {
        candidate_from(ps, cur, c, from + 1)
    }
}

/// The first path at or after `from` that no step has placed; `n` where
/// there is none.
pub open spec fn unplaced_from(n: int, order: Seq<Step>, from: int) -> int
    decreases n - from,
{
    if from >= n {
        n
    } else if !placed(order, from) {
        from
    } else {
        unplaced_from(n, order, from + 1)
    }
}

/// The step that follows the steps taken so far.
pub open spec fn next_step(ps: Seq<Seq<MapCoords>>, order: Seq<Step>) -> Step {
    let c = far_end(ps, order.last());
    let j = candidate_from(ps, order.last().index, c, 0);
    if j < ps.len() && !placed(order, j) {
        Step { index: j, reversed: ps[j].first() != c, opens: false }
    } else {
        Step { index: unplaced_from(ps.len() as int, order, 0), reversed: false, opens: true }
    }
}

/// The steps taken so far, followed by `steps` more.
pub open spec fn extended(ps: Seq<Seq<MapCoords>>, order: Seq<Step>, steps: nat) -> Seq<Step>
    decreases steps,
{
    if steps == 0 {
        order
    } else {
        extended(ps, order.push(next_step(ps, order)), (steps - 1) as nat)
    }
}

/// The order in which the paths are placed: one step for each path.
pub open spec fn chain_order(ps: Seq<Seq<MapCoords>>) -> Seq<Step> {
    extended(ps, seq![Step { index: 0, reversed: false, opens: true }], (ps.len() - 1) as nat)
}

/// The chains that a sequence of steps lays out: a step that opens a chain
/// starts a new one with its path, any other step adds its path to the end of
/// the last chain.
pub open spec fn chains(ps: Seq<Seq<MapCoords>>, order: Seq<Step>) -> Seq<Seq<MapCoords>>
    decreases order.len(),
{
    if order.len() == 0 {
        Seq::empty()
    } else {
        let before = chains(ps, order.drop_last());
        let s = order.last();
        if s.opens || before.len() == 0 {
            before.push(oriented(ps, s))
        } else {
            before.drop_last().push(before.last() + oriented(ps, s))
        }
    }
}

/// The chains that the paths are joined into.
pub open spec fn assembled(ps: Seq<Seq<MapCoords>>) -> Seq<Seq<MapCoords>> {
    chains(ps, chain_order(ps))
}

/// The number of points in all the paths of a list together.
pub open spec fn total_points(ps: Seq<Seq<MapCoords>>) -> nat
    decreases ps.len(),
{
    if ps.len() == 0 {
        0
    } else {
        total_points(ps.drop_last()) + ps.last().len()
    }
}

/// Every step places a path of the list, and no path is placed twice.
pub open spec fn valid_order(ps: Seq<Seq<MapCoords>>, order: Seq<Step>) -> bool {
    &&& 0 < order.len() <= ps.len()
    &&& forall|k: int| 0 <= k < order.len() ==> 0 <= (#[trigger] order[k]).index < ps.len()
    &&& forall|a: int, b: int|
        0 <= a < b < order.len() ==> (#[trigger] order[a]).index != (#[trigger] order[b]).index
}

/// What `candidate_from` returns: the first path from `from` on, other than
/// `cur`, that touches `c`.
pub proof fn lemma_candidate_from(ps: Seq<Seq<MapCoords>>, cur: int, c: MapCoords, from: int)
    requires
        0 <= from <= ps.len(),
    ensures
        from <= candidate_from(ps, cur, c, from) <= ps.len(),
        candidate_from(ps, cur, c, from) < ps.len() ==> {
            &&& candidate_from(ps, cur, c, from) != cur
            &&& touches(ps[candidate_from(ps, cur, c, from)], c)
        },
        forall|k: int|
            from <= k < candidate_from(ps, cur, c, from) ==> k == cur || !touches(
                #[trigger] ps[k],
                c,
            ),
    decreases ps.len() - from,
{
    if from < ps.len() && !(from != cur && touches(ps[from], c)) {
        lemma_candidate_from(ps, cur, c, from + 1);
    }
}

/// What `unplaced_from` returns: the first path from `from` on that has not
/// been placed.
pub proof fn lemma_unplaced_from(n: int, order: Seq<Step>, from: int)
    requires
        0 <= from <= n,
    ensures
        from <= unplaced_from(n, order, from) <= n,
        unplaced_from(n, order, from) < n ==> !placed(order, unplaced_from(n, order, from)),
        forall|k: int| from <= k < unplaced_from(n, order, from) ==> placed(order, k),
    decreases n - from,
{
    if from < n && placed(order, from) {
        lemma_unplaced_from(n, order, from + 1);
    }
}

/// After one more step, the paths placed are those placed before and the
/// path of that step.
pub proof fn lemma_placed_push(order: Seq<Step>, s: Step, j: int)
    ensures
        placed(order.push(s), j) <==> placed(order, j) || s.index == j,
{
    let longer = order.push(s);
    if placed(order, j) {
        let k = choose|k: int| 0 <= k < order.len() && (#[trigger] order[k]).index == j;
        assert(longer[k].index == j);
    }
    if s.index == j {
        assert(longer[order.len() as int].index == j);
    }
    if placed(longer, j) {
        let k = choose|k: int| 0 <= k < longer.len() && (#[trigger] longer[k]).index == j;
        if k < order.len() {
            assert(order[k].index == j);
        }
    }
}

/// While fewer steps have been taken than there are paths, some path has not
/// been placed.
pub proof fn lemma_some_unplaced(ps: Seq<Seq<MapCoords>>, order: Seq<Step>)
    requires
        valid_order(ps, order),
        order.len() < ps.len(),
    ensures
        unplaced_from(ps.len() as int, order, 0) < ps.len(),
{
    let n = ps.len() as int;
    lemma_unplaced_from(n, order, 0);
    if unplaced_from(n, order, 0) >= n {
        let idx = Seq::new(order.len(), |k: int| order[k].index);
        assert(idx.no_duplicates()) by {
            assert forall|a: int, b: int| 0 <= a < idx.len() && 0 <= b < idx.len() && a != b implies idx[a] != idx[b] by {
                if a < b {
                    assert(order[a].index != order[b].index);
                } else {
                    assert(order[b].index != order[a].index);
                }
            }
        }
        idx.unique_seq_to_set();
        seq_to_set_is_finite(idx);
        vstd::set_lib::lemma_int_range(0, n);
        let all = vstd::set_lib::set_int_range(0, n);
        assert(all.subset_of(idx.to_set())) by {
            assert forall|j: int| all.contains(j) implies idx.to_set().contains(j) by {
                assert(placed(order, j));
                let k = choose|k: int| 0 <= k < order.len() && (#[trigger] order[k]).index == j;
                assert(idx[k] == j);
            }
        }
        vstd::set_lib::lemma_len_subset(all, idx.to_set());
        assert(false);
    }
}

/// One more step keeps the order valid, and places a path that was not
/// placed before.
pub proof fn lemma_next_step_valid(ps: Seq<Seq<MapCoords>>, order: Seq<Step>)
    requires
        valid_order(ps, order),
        order.len() < ps.len(),
    ensures
        valid_order(ps, order.push(next_step(ps, order))),
        !placed(order, next_step(ps, order).index),
        0 <= next_step(ps, order).index < ps.len(),
{
    let n = ps.len() as int;
    let s = next_step(ps, order);
    let c = far_end(ps, order.last());
    lemma_candidate_from(ps, order.last().index, c, 0);
    lemma_unplaced_from(n, order, 0);
    lemma_some_unplaced(ps, order);
    let longer = order.push(s);
    assert forall|a: int, b: int| 0 <= a < b < longer.len() implies (#[trigger] longer[a]).index
        != (#[trigger] longer[b]).index by {
        if b < order.len() {
            assert(order[a].index != order[b].index);
        } else {
            assert(longer[a] == order[a]);
            assert(placed(order, order[a].index));
        }
    }
    assert forall|k: int| 0 <= k < longer.len() implies 0 <= (#[trigger] longer[k]).index < n by {
        if k < order.len() {
            assert(longer[k] == order[k]);
        }
    }
}

/// Taking as many more steps as there are paths left gives a valid order
/// that places every path.
pub proof fn lemma_extended_valid(ps: Seq<Seq<MapCoords>>, order: Seq<Step>, steps: nat)
    requires
        valid_order(ps, order),
        order.len() + steps == ps.len(),
    ensures
        valid_order(ps, extended(ps, order, steps)),
        extended(ps, order, steps).len() == ps.len(),
    decreases steps,
{
    if steps > 0 {
        lemma_next_step_valid(ps, order);
        lemma_extended_valid(ps, order.push(next_step(ps, order)), (steps - 1) as nat);
    }
}

/// The order in which the paths are placed is valid and places every path.
pub proof fn lemma_chain_order_valid(ps: Seq<Seq<MapCoords>>)
    requires
        ps.len() > 0,
    ensures
        valid_order(ps, chain_order(ps)),
        chain_order(ps).len() == ps.len(),
{
    let seed = seq![Step { index: 0, reversed: false, opens: true }];
    assert(valid_order(ps, seed));
    lemma_extended_valid(ps, seed, (ps.len() - 1) as nat);
}

/// The number of points in the paths that the steps place, each counted as
/// often as it is placed.
pub open spec fn order_points(ps: Seq<Seq<MapCoords>>, order: Seq<Step>) -> nat
    decreases order.len(),
{
    if order.len() == 0 {
        0
    } else {
        order_points(ps, order.drop_last()) + ps[order.last().index].len()
    }
}

/// The number of points in those of the first `m` paths that have been
/// placed.
pub open spec fn placed_points(ps: Seq<Seq<MapCoords>>, order: Seq<Step>, m: int) -> nat
    decreases m,
{
    if m <= 0 {
        0
    } else {
        placed_points(ps, order, m - 1) + if placed(order, m - 1) {
            ps[m - 1].len()
        } else {
            0
        }
    }
}

/// The chains hold as many points as the paths that the steps place.
pub proof fn lemma_chains_points(ps: Seq<Seq<MapCoords>>, order: Seq<Step>)
    ensures
        total_points(chains(ps, order)) == order_points(ps, order),
    decreases order.len(),
{
    if order.len() > 0 {
        let before = chains(ps, order.drop_last());
        let s = order.last();
        let x = oriented(ps, s);
        lemma_chains_points(ps, order.drop_last());
        assert(x.len() == ps[s.index].len());
        if s.opens || before.len() == 0 {
            assert(before.push(x).drop_last() =~= before);
        } else {
            let joined = before.drop_last().push(before.last() + x);
            assert(joined.drop_last() =~= before.drop_last());
        }
    }
}

/// A step that places a new path adds the points of that path.
pub proof fn lemma_placed_points_push(ps: Seq<Seq<MapCoords>>, order: Seq<Step>, s: Step, m: int)
    requires
        !placed(order, s.index),
        0 <= s.index,
    ensures
        placed_points(ps, order.push(s), m) == placed_points(ps, order, m) + if s.index < m {
            ps[s.index].len()
        } else {
            0
        },
    decreases m,
{
    if m > 0 {
        lemma_placed_points_push(ps, order, s, m - 1);
        lemma_placed_push(order, s, m - 1);
    }
}

/// Where no path is placed twice, the steps place as many points as the
/// placed paths hold.
pub proof fn lemma_order_points_placed(ps: Seq<Seq<MapCoords>>, order: Seq<Step>)
    requires
        forall|k: int| 0 <= k < order.len() ==> 0 <= (#[trigger] order[k]).index < ps.len(),
        forall|a: int, b: int|
            0 <= a < b < order.len() ==> (#[trigger] order[a]).index != (#[trigger] order[b]).index,
    ensures
        order_points(ps, order) == placed_points(ps, order, ps.len() as int),
    decreases order.len(),
{
    if order.len() == 0 {
        lemma_placed_points_none(ps, order, ps.len() as int);
    } else {
        let init = order.drop_last();
        let s = order.last();
        lemma_order_points_placed(ps, init);
        assert(!placed(init, s.index)) by {
            if placed(init, s.index) {
                let k = choose|k: int| 0 <= k < init.len() && (#[trigger] init[k]).index == s.index;
                assert(order[k].index != order[order.len() - 1].index);
            }
        }
        lemma_placed_points_push(ps, init, s, ps.len() as int);
        assert(init.push(s) =~= order);
    }
}

/// Without steps nothing is placed.
pub proof fn lemma_placed_points_none(ps: Seq<Seq<MapCoords>>, order: Seq<Step>, m: int)
    requires
        order.len() == 0,
    ensures
        placed_points(ps, order, m) == 0,
    decreases m,
{
    if m > 0 {
        lemma_placed_points_none(ps, order, m - 1);
    }
}

/// Where each of the first `m` paths is placed, the placed ones among them
/// hold all their points.
pub proof fn lemma_placed_points_all(ps: Seq<Seq<MapCoords>>, order: Seq<Step>, m: int)
    requires
        0 <= m <= ps.len(),
        forall|j: int| 0 <= j < m ==> placed(order, j),
    ensures
        placed_points(ps, order, m) == total_points(ps.subrange(0, m)),
    decreases m,
{
    if m > 0 {
        lemma_placed_points_all(ps, order, m - 1);
        assert(ps.subrange(0, m).drop_last() =~= ps.subrange(0, m - 1));
    }
}

/// A valid order with one step for each path places every path.
pub proof fn lemma_full_order_places_all(ps: Seq<Seq<MapCoords>>, order: Seq<Step>)
    requires
        valid_order(ps, order),
        order.len() == ps.len(),
    ensures
        forall|j: int| 0 <= j < ps.len() ==> placed(order, j),
{
    let n = ps.len() as int;
    let idx = Seq::new(order.len(), |k: int| order[k].index);
    assert(idx.no_duplicates()) by {
        assert forall|a: int, b: int| 0 <= a < idx.len() && 0 <= b < idx.len() && a != b implies idx[a] != idx[b] by {
            if a < b {
                assert(order[a].index != order[b].index);
            } else {
                assert(order[b].index != order[a].index);
            }
        }
    }
    idx.unique_seq_to_set();
    seq_to_set_is_finite(idx);
    vstd::set_lib::lemma_int_range(0, n);
    let all = vstd::set_lib::set_int_range(0, n);
    assert(idx.to_set().subset_of(all)) by {
        assert forall|j: int| idx.to_set().contains(j) implies all.contains(j) by {
            let k = choose|k: int| 0 <= k < idx.len() && idx[k] == j;
            assert(order[k].index == j);
        }
    }
    vstd::set_lib::lemma_subset_equality(idx.to_set(), all);
    assert forall|j: int| 0 <= j < n implies placed(order, j) by {
        assert(all.contains(j));
        assert(idx.to_set().contains(j));
        let k = choose|k: int| 0 <= k < idx.len() && idx[k] == j;
        assert(order[k].index == j);
    }
}

/// No point is lost and none is added: the chains hold as many points as the
/// paths they are made of.
pub proof fn lemma_points_preserved(ps: Seq<Seq<MapCoords>>)
    requires
        ps.len() > 0,
    ensures
        total_points(assembled(ps)) == total_points(ps),
{
    let order = chain_order(ps);
    lemma_chain_order_valid(ps);
    lemma_chains_points(ps, order);
    lemma_order_points_placed(ps, order);
    lemma_full_order_places_all(ps, order);
    lemma_placed_points_all(ps, order, ps.len() as int);
    assert(ps.subrange(0, ps.len() as int) =~= ps);
}

/// Adds the points of `p` to the end of `dst`, last point first where
/// `reversed` is set.
fn append_path(dst: &mut Vec<MapCoords>, p: &Vec<MapCoords>, reversed: bool)
    ensures
        final(dst)@ == old(dst)@ + if reversed {
            p@.reverse()
        } else {
            p@
        },
{
    let n = p.len();
    let mut i: usize = 0;
    while i < n
        invariant
            n == p.len(),
            i <= n,
            dst@ == old(dst)@ + if reversed {
                p@.reverse().subrange(0, i as int)
            } else {
                p@.subrange(0, i as int)
            },
        decreases n - i,
    {
        if reversed {
            dst.push(p[n - 1 - i]);
            assert(p@.reverse().subrange(0, i + 1) =~= p@.reverse().subrange(0, i as int).push(
                p@[n - 1 - i],
            ));
        } else {
            dst.push(p[i]);
            assert(p@.subrange(0, i + 1) =~= p@.subrange(0, i as int).push(p@[i as int]));
        }
        i += 1;
        assert(dst@ =~= old(dst)@ + if reversed {
            p@.reverse().subrange(0, i as int)
        } else {
            p@.subrange(0, i as int)
        });
    }
    assert(p@.reverse().subrange(0, n as int) =~= p@.reverse());
    assert(p@.subrange(0, n as int) =~= p@);
}

/// The first path, other than `cur`, that has `c` as its first or its last
/// point; the number of paths where there is none.
fn find_candidate(paths: &Vec<Path>, cur: usize, c: MapCoords) -> (j: usize)
    requires
        well_formed(views(paths@)),
    ensures
        j == candidate_from(views(paths@), cur as int, c, 0),
{
    let ghost ps = views(paths@);
    let n = paths.len();
    let mut j: usize = 0;
    while j < n
        invariant
            n == paths.len(),
            ps == views(paths@),
            well_formed(ps),
            j <= n,
            candidate_from(ps, cur as int, c, 0) == candidate_from(ps, cur as int, c, j as int),
        decreases n - j,
    {
        let p = &paths[j];
        assert(ps[j as int] == p@);
        assert(p@.len() > 0);
        if j != cur && (p[0] == c || p[p.len() - 1] == c) {
            return j;
        }
        j += 1;
    }
    j
}

/// The first path that has not been placed; the number of paths where every
/// path has been.
fn find_unplaced(seen: &Vec<bool>, Ghost(order): Ghost<Seq<Step>>) -> (j: usize)
    requires
        forall|k: int| 0 <= k < seen.len() ==> seen[k] == placed(order, k),
    ensures
        j == unplaced_from(seen.len() as int, order, 0),
{
    let n = seen.len();
    let mut j: usize = 0;
    while j < n
        invariant
            n == seen.len(),
            j <= n,
            forall|k: int| 0 <= k < seen.len() ==> seen[k] == placed(order, k),
            unplaced_from(n as int, order, 0) == unplaced_from(n as int, order, j as int),
        decreases n - j,
    {
        if !seen[j] {
            return j;
        }
        j += 1;
    }
    j
}

/// Whether there is at least one path and every path has a point.
fn check_well_formed(paths: &Vec<Path>) -> (ok: bool)
    ensures
        ok == well_formed(views(paths@)),
{
    let ghost ps = views(paths@);
    let n = paths.len();
    if n == 0 {
        return false;
    }
    let mut i: usize = 0;
    while i < n
        invariant
            n == paths.len(),
            ps == views(paths@),
            i <= n,
            forall|k: int| 0 <= k < i ==> (#[trigger] ps[k]).len() > 0,
        decreases n - i,
    {
        if paths[i].len() == 0 {
            assert(ps[i as int].len() == 0);
            return false;
        }
        i += 1;
    }
    true
}

impl Area {
    /// Joins the paths into chains.
    ///
    /// Fails where the list is empty or one of its paths has no point.
    /// Otherwise the result is `assembled` of the paths: every path is placed
    /// once, whole, forwards or backwards, and the chains together hold as
    /// many points as the paths.
    pub fn reorder_ways(unordered_ways: &Vec<Path>) -> (r: Result<Vec<Path>>)
        ensures
            r.is_ok() <==> well_formed(views(unordered_ways@)),
            r matches Ok(out) ==> {
                &&& views(out@) == assembled(views(unordered_ways@))
                &&& total_points(views(out@)) == total_points(views(unordered_ways@))
            },
            r matches Err(e) ==> e.kind == ErrorKind::Geometry,
    {
        let paths = unordered_ways;
        let ghost ps = views(paths@);
        if !check_well_formed(paths) {
            return Err(Error::new(ErrorKind::Geometry, "a polygon needs at least one path, and every path a point"));
        }
        let n = paths.len();
        let mut seen: Vec<bool> = Vec::new();
        let mut i: usize = 0;
        while i < n
            invariant
                i <= n,
                seen.len() == i,
                forall|k: int| 0 <= k < i ==> seen[k] == (k == 0),
            decreases n - i,
        {
            seen.push(i == 0);
            i += 1;
        }
        let mut done: Vec<Path> = Vec::new();
        let mut current: Vec<MapCoords> = Vec::new();
        append_path(&mut current, &paths[0], false);
        let mut cur: usize = 0;
        assert(ps[0] == paths[0]@);
        let mut link: MapCoords = paths[0][paths[0].len() - 1];
        let mut count: usize = 1;
        let ghost mut order: Seq<Step> = seq![Step { index: 0, reversed: false, opens: true }];
        proof {
            assert(order.drop_last() =~= Seq::<Step>::empty());
            assert(chains(ps, order.drop_last()) =~= Seq::<Seq<MapCoords>>::empty());
            assert(views(done@).push(current@) =~= chains(ps, order));
            assert forall|k: int| 0 <= k < seen.len() implies seen[k] == placed(order, k) by {
                if k == 0 {
                    assert(order[0].index == 0);
                }
            }
        }
        while count < n
            invariant
                n == paths.len(),
                ps == views(paths@),
                well_formed(ps),
                valid_order(ps, order),
                order.len() == count,
                count <= n,
                seen.len() == n,
                forall|k: int| 0 <= k < seen.len() ==> seen[k] == placed(order, k),
                cur == order.last().index,
                link == far_end(ps, order.last()),
                views(done@).push(current@) == chains(ps, order),
                extended(ps, order, (n - count) as nat) == chain_order(ps),
            decreases n - count,
        {
            let ghost step = next_step(ps, order);
            let ghost longer = order.push(step);
            proof {
                lemma_next_step_valid(ps, order);
                lemma_candidate_from(ps, cur as int, link, 0);
                lemma_unplaced_from(n as int, order, 0);
                lemma_some_unplaced(ps, order);
                assert(longer.drop_last() =~= order);
            }
            let j = find_candidate(paths, cur, link);
            if j < n && !seen[j] {
                let p = &paths[j];
                assert(ps[j as int] == p@);
                let reversed = !(p[0] == link);
                append_path(&mut current, p, reversed);
                link = if reversed {
                    p[0]
                } else {
                    p[p.len() - 1]
                };
                seen.set(j, true);
                cur = j;
                proof {
                    let before = chains(ps, order);
                    assert(before.drop_last() =~= views(done@));
                    assert(views(done@).push(current@) =~= chains(ps, longer));
                }
            } else {
                let u = find_unplaced(&seen, Ghost(order));
                let p = &paths[u];
                assert(ps[u as int] == p@);
                let ghost closed = current@;
                let ghost done_before = views(done@);
                done.push(current);
                current = Vec::new();
                append_path(&mut current, p, false);
                link = p[p.len() - 1];
                seen.set(u, true);
                cur = u;
                proof {
                    assert(views(done@) =~= done_before.push(closed));
                    assert(views(done@).push(current@) =~= chains(ps, longer));
                }
            }
            proof {
                assert forall|k: int| 0 <= k < seen.len() implies seen[k] == placed(longer, k) by {
                    lemma_placed_push(order, step, k);
                }
                order = longer;
            }
            count += 1;
        }
        let ghost done_before = views(done@);
        done.push(current);
        proof {
            assert(views(done@) =~= done_before.push(current@));
            lemma_points_preserved(ps);
        }
        Ok(done)
    }

    /// An area of the given kind, outlined by the chains that the paths are
    /// joined into. Fails as `reorder_ways` does.
    pub fn new(area_type: AreaType, unordered_ways: &Vec<Path>) -> (r: Result<Area>)
        ensures
            r.is_ok() <==> well_formed(views(unordered_ways@)),
            r matches Ok(area) ==> {
                &&& area.area_type == area_type
                &&& views(area.area_polygons@) == assembled(views(unordered_ways@))
            },
            r matches Err(e) ==> e.kind == ErrorKind::Geometry,
    {
        match Area::reorder_ways(unordered_ways) {
            Ok(area_polygons) => Ok(Area { area_type, area_polygons }),
            Err(e) => Err(e),
        }
    }
}

/// A single path comes out unchanged, as the only chain.
pub proof fn lemma_single_path(p: Seq<MapCoords>)
    ensures
        assembled(seq![p]) == seq![p],
{
    let ps = seq![p];
    let seed = seq![Step { index: 0, reversed: false, opens: true }];
    assert(chain_order(ps) == seed);
    assert(seed.drop_last() =~= Seq::<Step>::empty());
    assert(chains(ps, seed.drop_last()) =~= Seq::<Seq<MapCoords>>::empty());
    assert(chains(ps, seed) =~= seq![p]);
}

/// There are at most as many chains as steps, and a chain where there is a
/// step.
pub proof fn lemma_chains_len(ps: Seq<Seq<MapCoords>>, order: Seq<Step>)
    ensures
        chains(ps, order).len() <= order.len(),
        order.len() > 0 ==> chains(ps, order).len() > 0,
    decreases order.len(),
{
    if order.len() > 0 {
        lemma_chains_len(ps, order.drop_last());
    }
}

/// The paths are joined into at least one chain and at most as many chains
/// as there are paths.
pub proof fn lemma_chain_count(ps: Seq<Seq<MapCoords>>)
    requires
        ps.len() > 0,
    ensures
        0 < assembled(ps).len() <= ps.len(),
{
    lemma_chain_order_valid(ps);
    lemma_chains_len(ps, chain_order(ps));
}

/// Every step but the first either opens a chain or starts where the step
/// before it ended.
pub open spec fn connected(ps: Seq<Seq<MapCoords>>, order: Seq<Step>) -> bool {
    forall|k: int|
        0 < k < order.len() && !(#[trigger] order[k]).opens ==> oriented(ps, order[k]).first()
            == far_end(ps, order[k - 1])
}

proof fn lemma_extended_connected(ps: Seq<Seq<MapCoords>>, order: Seq<Step>, steps: nat)
    requires
        well_formed(ps),
        valid_order(ps, order),
        order.len() + steps == ps.len(),
        connected(ps, order),
    ensures
        connected(ps, extended(ps, order, steps)),
    decreases steps,
{
    if steps > 0 {
        let s = next_step(ps, order);
        let longer = order.push(s);
        lemma_next_step_valid(ps, order);
        lemma_candidate_from(ps, order.last().index, far_end(ps, order.last()), 0);
        assert forall|k: int| 0 < k < longer.len() && !(#[trigger] longer[k]).opens implies oriented(
            ps,
            longer[k],
        ).first() == far_end(ps, longer[k - 1]) by {
            if k < order.len() {
                assert(longer[k] == order[k]);
                assert(longer[k - 1] == order[k - 1]);
            } else {
                assert(longer[k - 1] == order.last());
                assert(ps[s.index].len() > 0);
            }
        }
        lemma_extended_connected(ps, longer, (steps - 1) as nat);
    }
}

/// Within a chain, each path starts at the point where the path before it
/// ended.
pub proof fn lemma_chains_connect(ps: Seq<Seq<MapCoords>>)
    requires
        well_formed(ps),
    ensures
        connected(ps, chain_order(ps)),
{
    let seed = seq![Step { index: 0, reversed: false, opens: true }];
    assert(valid_order(ps, seed));
    lemma_extended_connected(ps, seed, (ps.len() - 1) as nat);
}

/// No path ends where another path starts or ends.
pub open spec fn ends_apart(ps: Seq<Seq<MapCoords>>) -> bool {
    forall|i: int, j: int|
        0 <= i < ps.len() && 0 <= j < ps.len() && i != j ==> !touches(
            #[trigger] ps[j],
            (#[trigger] ps[i]).last(),
        )
}

/// The first `k` paths, each opening a chain of its own.
pub open spec fn one_by_one(k: int) -> Seq<Step> {
    Seq::new(k as nat, |i: int| Step { index: i, reversed: false, opens: true })
}

proof fn lemma_extended_apart(ps: Seq<Seq<MapCoords>>, k: int)
    requires
        ends_apart(ps),
        0 < k <= ps.len(),
    ensures
        extended(ps, one_by_one(k), (ps.len() - k) as nat) == one_by_one(ps.len() as int),
    decreases ps.len() - k,
{
    if k < ps.len() {
        let n = ps.len() as int;
        let order = one_by_one(k);
        let c = far_end(ps, order.last());
        lemma_candidate_from(ps, k - 1, c, 0);
        let j = candidate_from(ps, k - 1, c, 0);
        if j < n {
            assert(touches(ps[j], ps[k - 1].last()));
        }
        lemma_unplaced_from(n, order, 0);
        let u = unplaced_from(n, order, 0);
        assert forall|i: int| 0 <= i < k implies placed(order, i) by {
            assert(order[i].index == i);
        }
        assert(!placed(order, k));
        assert(u == k);
        assert(order.push(next_step(ps, order)) =~= one_by_one(k + 1));
        lemma_extended_apart(ps, k + 1);
    }
}

proof fn lemma_chains_one_by_one(ps: Seq<Seq<MapCoords>>, k: int)
    requires
        0 <= k <= ps.len(),
    ensures
        chains(ps, one_by_one(k)) == ps.subrange(0, k),
    decreases k,
{
    if k > 0 {
        lemma_chains_one_by_one(ps, k - 1);
        assert(one_by_one(k).drop_last() =~= one_by_one(k - 1));
        assert(ps.subrange(0, k - 1).push(ps[k - 1]) =~= ps.subrange(0, k));
    } else {
        assert(ps.subrange(0, 0) =~= Seq::<Seq<MapCoords>>::empty());
    }
}

/// Paths that share no end point stay apart: each comes out unchanged as a
/// chain of its own, in the order given.
pub proof fn lemma_paths_apart(ps: Seq<Seq<MapCoords>>)
    requires
        ps.len() > 0,
        ends_apart(ps),
    ensures
        assembled(ps) == ps,
{
    assert(one_by_one(1) =~= seq![Step { index: 0, reversed: false, opens: true }]);
    lemma_extended_apart(ps, 1);
    lemma_chains_one_by_one(ps, ps.len() as int);
    assert(ps.subrange(0, ps.len() as int) =~= ps);
}

/// Each path ends where the next one starts, and at no other end point of
/// any other path.
pub open spec fn in_a_row(ps: Seq<Seq<MapCoords>>) -> bool {
    &&& forall|i: int| 0 <= i < ps.len() - 1 ==> (#[trigger] ps[i]).last() == ps[i + 1].first()
    &&& forall|i: int, j: int|
        0 <= i < ps.len() && 0 <= j < ps.len() && j != i && j != i + 1 ==> !touches(
            #[trigger] ps[j],
            (#[trigger] ps[i]).last(),
        )
}

/// The first `k` paths, placed forwards in one chain.
pub open spec fn one_chain(k: int) -> Seq<Step> {
    Seq::new(k as nat, |i: int| Step { index: i, reversed: false, opens: i == 0 })
}

/// The points of all the paths, path after path.
pub open spec fn joined(ps: Seq<Seq<MapCoords>>) -> Seq<MapCoords>
    decreases ps.len(),
{
    if ps.len() == 0 {
        Seq::empty()
    } else {
        joined(ps.drop_last()) + ps.last()
    }
}

proof fn lemma_extended_in_a_row(ps: Seq<Seq<MapCoords>>, k: int)
    requires
        in_a_row(ps),
        0 < k <= ps.len(),
    ensures
        extended(ps, one_chain(k), (ps.len() - k) as nat) == one_chain(ps.len() as int),
    decreases ps.len() - k,
{
    if k < ps.len() {
        let n = ps.len() as int;
        let order = one_chain(k);
        let c = far_end(ps, order.last());
        assert(c == ps[k - 1].last());
        lemma_candidate_from(ps, k - 1, c, 0);
        let j = candidate_from(ps, k - 1, c, 0);
        assert(ps[k].first() == c);
        assert(touches(ps[k], c));
        if j < k {
            assert(touches(ps[j], ps[k - 1].last()));
        }
        assert(j == k);
        assert(!placed(order, k));
        assert(order.push(next_step(ps, order)) =~= one_chain(k + 1));
        lemma_extended_in_a_row(ps, k + 1);
    }
}

proof fn lemma_chains_one_chain(ps: Seq<Seq<MapCoords>>, k: int)
    requires
        0 < k <= ps.len(),
    ensures
        chains(ps, one_chain(k)) == seq![joined(ps.subrange(0, k))],
    decreases k,
{
    assert(one_chain(k).drop_last() =~= one_chain(k - 1));
    assert(ps.subrange(0, k).drop_last() =~= ps.subrange(0, k - 1));
    if k > 1 {
        lemma_chains_one_chain(ps, k - 1);
        let before = chains(ps, one_chain(k - 1));
        assert(before.drop_last().push(before.last() + ps[k - 1]) =~= seq![
            joined(ps.subrange(0, k)),
        ]);
    } else {
        assert(chains(ps, one_chain(0)) =~= Seq::<Seq<MapCoords>>::empty());
        assert(joined(ps.subrange(0, 0)) =~= Seq::<MapCoords>::empty());
        assert(joined(ps.subrange(0, 1)) =~= ps[0]);
        assert(chains(ps, one_chain(1)) =~= seq![joined(ps.subrange(0, 1))]);
    }
}

/// Paths that follow one another make one chain: all their points, path
/// after path, none walked backwards.
pub proof fn lemma_paths_in_a_row(ps: Seq<Seq<MapCoords>>)
    requires
        ps.len() > 0,
        in_a_row(ps),
    ensures
        assembled(ps) == seq![joined(ps)],
{
    assert(one_chain(1) =~= seq![Step { index: 0, reversed: false, opens: true }]);
    lemma_extended_in_a_row(ps, 1);
    lemma_chains_one_chain(ps, ps.len() as int);
    assert(ps.subrange(0, ps.len() as int) =~= ps);
}

} // verus!
