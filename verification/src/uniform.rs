//! The search where every cell that can be entered costs the same and
//! nothing is estimated: the frontier is a queue, and the factor that
//! weighs the cost changes no decision.

use vstd::prelude::*;
use crate::models::{Coord, NodeView};
use crate::progress::{lemma_path_to_walk, lemma_run_thorough, lemma_step_thorough, thorough};
use crate::search::{
    child, first_at, initial, is_first_at, is_selected, lemma_first_at_unique,
    lemma_selected_unique, listed, offer, offer_all, path_to, run, selected, sits_at, step,
    Outcome, Problem, SearchState,
};
use crate::shape::{
    known, lemma_close_sound, lemma_first_at_exists, lemma_offer_all_sound, lemma_offer_sound,
    lemma_run_sound, lemma_step_sound, linked, sound,
};

verus! {

/// Every cell that can be entered costs `k`.
pub open spec fn uniform_cost(p: Problem, k: int) -> bool {
    forall|c: Coord| #[trigger] p.enterable(c) ==> (p.cost)(c) == k
}

/// Nothing is estimated.
pub open spec fn blind(p: Problem) -> bool {
    forall|c: Coord| #[trigger] (p.estimate)(c) == 0
}

/// The frontier is a queue: priorities are path lengths shifted by the
/// constant `shift`, the entries are in order of path length, and they
/// span the levels `level` and `level + 1` only.
pub open spec fn queued(s: SearchState, level: int, shift: int) -> bool {
    &&& forall|i: int| 1 <= i < s.nodes.len() ==> (#[trigger] s.nodes[i]).f == s.nodes[i].g + shift
    &&& forall|a: int, b: int|
        0 <= a < b < s.open.len() ==> s.nodes[#[trigger] s.open[a]].g <= s.nodes[#[trigger] s.open[b]].g
    &&& forall|a: int| 0 <= a < s.open.len() ==> level <= s.nodes[#[trigger] s.open[a]].g <= level + 1
}

/// The level that the search works on: the path length of the oldest
/// frontier entry, or of the newest expanded node when the frontier is
/// empty.
pub open spec fn level_of(s: SearchState) -> int {
    if s.open.len() > 0 {
        s.nodes[s.open[0]].g
    } else if s.closed.len() > 0 {
        s.nodes[s.closed.last()].g
    } else {
        0
    }
}

/// While the search runs, its frontier is a queue at the level it works on.
pub open spec fn in_queue(p: Problem, k: int, s: SearchState) -> bool {
    s.outcome is Running ==> queued(s, level_of(s), p.terrain_weight * k)
}

/// In a queue the oldest entry is the selected one.
pub proof fn lemma_front_selected(p: Problem, s: SearchState, level: int, shift: int)
    requires
        sound(p, s),
        s.outcome is Running,
        s.open.len() > 0,
        queued(s, level, shift),
    ensures
        selected(s.nodes, s.open) == 0,
{
    assert forall|j: int| 0 <= j < s.open.len() implies s.nodes[s.open[0]].f <= s.nodes[#[trigger] s.open[j]].f by {
        if j > 0 {
            assert(s.nodes[s.open[0]].g <= s.nodes[s.open[j]].g);
            assert(s.open[0] != s.open[j]);
            if s.open[0] == 0 || s.open[j] == 0 {
                if s.closed.len() > 0 {
                    let m = choose|m: int| 0 <= m < s.closed.len() && s.closed[m] == 0;
                    assert(s.open[0] != s.closed[m]);
                    assert(s.open[j] != s.closed[m]);
                } else {
                    if s.nodes.len() > 1 {
                        assert(linked(p, s, 1));
                    }
                    assert(0 <= s.open[0] < 1);
                    assert(0 <= s.open[j] < 1);
                }
            } else {
                assert(0 <= s.open[0] < s.nodes.len());
                assert(0 <= s.open[j] < s.nodes.len());
            }
        }
    }
    assert(is_selected(s.nodes, s.open, 0));
    lemma_selected_unique(s.nodes, s.open, 0);
}

/// The arena `after` holds the nodes of `before`, unchanged, and new ones
/// behind them.
pub open spec fn kept(before: Seq<NodeView>, after: Seq<NodeView>) -> bool {
    &&& before.len() <= after.len()
    &&& forall|i: int| 0 <= i < before.len() ==> #[trigger] after[i] == before[i]
}

/// One offer keeps the queue, and in a queue no offer relaxes a node.
pub proof fn lemma_offer_queued(p: Problem, k: int, s: SearchState, cur: int, c: Coord, level: int)
    requires
        uniform_cost(p, k),
        blind(p),
        sound(p, s),
        s.outcome is Running,
        s.closed.contains(cur),
        s.nodes[cur].g == level,
        p.diagonal.neighbours(p.cost, s.nodes[cur].xy).contains(c),
        queued(s, level, p.terrain_weight * k),
    ensures
        queued(offer(p, s, cur, c), level, p.terrain_weight * k),
        kept(s.nodes, offer(p, s, cur, c).nodes),
{
    let t = offer(p, s, cur, c);
    let shift = p.terrain_weight * k;
    lemma_offer_sound(p, s, cur, c);
    if !p.enterable(c) {
    } else if listed(s.nodes, s.open, c) {
        lemma_first_at_exists(s.nodes, s.open, c);
        let j = s.open[first_at(s.nodes, s.open, c)];
        assert(level <= s.nodes[j].g <= level + 1);
    } else if listed(s.nodes, s.closed, c) {
    } else {
        let n = s.nodes.len() as int;
        let fresh = child(p, s.nodes, cur, c);
        assert(t.nodes[n] == fresh);
        assert((p.cost)(c) == k);
        assert((p.estimate)(c) == 0);
        assert(fresh.f == fresh.g + shift);
        assert forall|i: int| 1 <= i < t.nodes.len() implies (#[trigger] t.nodes[i]).f
            == t.nodes[i].g + shift by {
            if i < n {
                assert(t.nodes[i] == s.nodes[i]);
            }
        }
        assert forall|a: int| 0 <= a < t.open.len() implies level <= t.nodes[#[trigger] t.open[a]].g
            <= level + 1 by {
            if a < s.open.len() {
                assert(t.open[a] == s.open[a]);
                assert(0 <= s.open[a] < n);
            }
        }
        assert forall|a: int, b: int| 0 <= a < b < t.open.len() implies t.nodes[#[trigger] t.open[a]].g
            <= t.nodes[#[trigger] t.open[b]].g by {
            assert(t.open[a] == s.open[a]);
            assert(0 <= s.open[a] < n);
            if b < s.open.len() {
                assert(t.open[b] == s.open[b]);
                assert(0 <= s.open[b] < n);
            }
        }
    }
}

/// Offering all candidates keeps the queue.
pub proof fn lemma_offer_all_queued(
    p: Problem,
    k: int,
    s: SearchState,
    cur: int,
    cands: Seq<Coord>,
    level: int,
)
    requires
        uniform_cost(p, k),
        blind(p),
        sound(p, s),
        s.outcome is Running,
        s.closed.contains(cur),
        s.nodes[cur].g == level,
        forall|j: int|
            0 <= j < cands.len() ==> p.diagonal.neighbours(p.cost, s.nodes[cur].xy).contains(
                #[trigger] cands[j],
            ),
        queued(s, level, p.terrain_weight * k),
    ensures
        queued(offer_all(p, s, cur, cands), level, p.terrain_weight * k),
        kept(s.nodes, offer_all(p, s, cur, cands).nodes),
    decreases cands.len(),
{
    if cands.len() > 0 {
        let front = cands.drop_last();
        let t0 = offer_all(p, s, cur, front);
        lemma_offer_all_sound(p, s, cur, front);
        lemma_offer_all_queued(p, k, s, cur, front, level);
        let m = choose|m: int| 0 <= m < s.closed.len() && s.closed[m] == cur;
        assert(t0.nodes[s.closed[m]] == s.nodes[s.closed[m]]);
        assert(0 <= cur < s.nodes.len());
        assert(t0.nodes[cur] == s.nodes[cur]);
        assert(p.diagonal.neighbours(p.cost, s.nodes[cur].xy).contains(cands[cands.len() - 1]));
        lemma_offer_queued(p, k, t0, cur, cands.last(), level);
    }
}

/// The state after the selected entry of a queue moved to the expanded
/// nodes is a queue at the same level.
pub proof fn lemma_close_queued(p: Problem, s: SearchState, level: int, shift: int)
    requires
        sound(p, s),
        s.outcome is Running,
        s.open.len() > 0,
        queued(s, level, shift),
    ensures
        queued(
            SearchState { open: s.open.remove(0), closed: s.closed.push(s.open[0]), ..s },
            level,
            shift,
        ),
{
    let rest = s.open.remove(0);
    let base = SearchState { open: rest, closed: s.closed.push(s.open[0]), ..s };
    assert forall|a: int, b: int| 0 <= a < b < rest.len() implies base.nodes[#[trigger] rest[a]].g
        <= base.nodes[#[trigger] rest[b]].g by {
        assert(rest[a] == s.open[a + 1]);
        assert(rest[b] == s.open[b + 1]);
    }
    assert forall|a: int| 0 <= a < rest.len() implies level <= base.nodes[#[trigger] rest[a]].g
        <= level + 1 by {
        assert(rest[a] == s.open[a + 1]);
    }
}

/// A step keeps the frontier a queue.
pub proof fn lemma_step_queued(p: Problem, k: int, s: SearchState)
    requires
        uniform_cost(p, k),
        blind(p),
        sound(p, s),
        in_queue(p, k, s),
    ensures
        in_queue(p, k, step(p, s)),
{
    let shift = p.terrain_weight * k;
    if s.outcome is Running && s.open.len() > 0 {
        let level = level_of(s);
        lemma_front_selected(p, s, level, shift);
        lemma_close_sound(p, s);
        let cur = s.open[0];
        if !(p.goal)(s.nodes[cur].xy) {
            let shut = s.closed.push(cur);
            let base = SearchState { open: s.open.remove(0), closed: shut, ..s };
            let cands = p.diagonal.neighbours(p.cost, s.nodes[cur].xy);
            lemma_close_queued(p, s, level, shift);
            lemma_offer_all_sound(p, base, cur, cands);
            lemma_offer_all_queued(p, k, base, cur, cands, level);
            let t = offer_all(p, base, cur, cands);
            assert(t == step(p, s));
            let next = level_of(t);
            if t.open.len() > 0 {
                assert(level <= t.nodes[t.open[0]].g <= level + 1);
                assert forall|a: int| 0 <= a < t.open.len() implies next <= t.nodes[#[trigger] t.open[a]].g
                    <= next + 1 by {
                    if a > 0 {
                        assert(t.nodes[t.open[0]].g <= t.nodes[t.open[a]].g);
                    }
                }
            }
        }
    }
}

/// Every state of a blind search over uniform costs has a queue for a
/// frontier.
pub proof fn lemma_run_queued(p: Problem, k: int, n: nat)
    requires
        uniform_cost(p, k),
        blind(p),
    ensures
        in_queue(p, k, run(p, n)),
    decreases n,
{
    if n > 0 {
        lemma_run_queued(p, k, (n - 1) as nat);
        lemma_run_sound(p, (n - 1) as nat);
        lemma_step_queued(p, k, run(p, (n - 1) as nat));
    }
}

/// Two states that agree in everything but the priorities of their nodes.
pub open spec fn alike(a: SearchState, b: SearchState) -> bool {
    &&& a.nodes.len() == b.nodes.len()
    &&& forall|i: int|
        0 <= i < a.nodes.len() ==> {
            &&& (#[trigger] a.nodes[i]).xy == b.nodes[i].xy
            &&& a.nodes[i].g == b.nodes[i].g
            &&& a.nodes[i].h == b.nodes[i].h
            &&& a.nodes[i].parent == b.nodes[i].parent
        }
    &&& a.open == b.open
    &&& a.closed == b.closed
    &&& a.outcome == b.outcome
}

/// Two problems that differ at most in the factor that weighs the cost.
pub open spec fn same_but_weight(a: Problem, b: Problem) -> bool {
    &&& a.width == b.width
    &&& a.height == b.height
    &&& a.start == b.start
    &&& a.diagonal == b.diagonal
    &&& a.relax == b.relax
    &&& a.cost == b.cost
    &&& a.goal == b.goal
    &&& a.estimate == b.estimate
}

/// Paths do not depend on priorities.
proof fn lemma_alike_paths(a: Seq<NodeView>, b: Seq<NodeView>, i: int)
    requires
        a.len() == b.len(),
        forall|j: int|
            0 <= j < a.len() ==> {
                &&& (#[trigger] a[j]).xy == b[j].xy
                &&& a[j].g == b[j].g
                &&& a[j].parent == b[j].parent
            },
    ensures
        path_to(a, i) == path_to(b, i),
    decreases
            (if 0 <= i < a.len() {
                a[i].g
            } else {
                0
            }),
{
    if 0 <= i < a.len() {
        assert(a[i].xy == b[i].xy);
        match a[i].parent {
            Some(q) => {
                if 0 <= q < a.len() && 0 <= a[q].g < a[i].g {
                    assert(a[q].xy == b[q].xy);
                    lemma_alike_paths(a, b, q);
                }
            },
            None => {},
        }
    }
}

/// Whether a list holds a node on a cell does not depend on priorities.
proof fn lemma_alike_listed(a: SearchState, b: SearchState, list: Seq<int>, c: Coord)
    requires
        alike(a, b),
        forall|k: int| 0 <= k < list.len() ==> 0 <= #[trigger] list[k] < a.nodes.len(),
    ensures
        listed(a.nodes, list, c) == listed(b.nodes, list, c),
        listed(a.nodes, list, c) ==> first_at(a.nodes, list, c) == first_at(b.nodes, list, c),
{
    assert forall|k: int| sits_at(a.nodes, list, c, k) == sits_at(b.nodes, list, c, k) by {
        if 0 <= k < list.len() {
            assert(a.nodes[list[k]].xy == b.nodes[list[k]].xy);
        }
    }
    if listed(a.nodes, list, c) {
        let w = choose|k: int| sits_at(a.nodes, list, c, k);
        assert(sits_at(b.nodes, list, c, w));
        lemma_first_at_exists(a.nodes, list, c);
        let k = first_at(a.nodes, list, c);
        assert forall|j: int| 0 <= j < k implies b.nodes[#[trigger] list[j]].xy != c by {
            assert(a.nodes[list[j]].xy == b.nodes[list[j]].xy);
        }
        assert(a.nodes[list[k]].xy == b.nodes[list[k]].xy);
        assert(is_first_at(b.nodes, list, c, k));
        lemma_first_at_unique(b.nodes, list, c, k);
    }
    if listed(b.nodes, list, c) {
        let w = choose|k: int| sits_at(b.nodes, list, c, k);
        assert(sits_at(a.nodes, list, c, w));
    }
}

/// Offers to alike states give alike states.
proof fn lemma_offer_alike(pa: Problem, pb: Problem, a: SearchState, b: SearchState, cur: int, c: Coord)
    requires
        same_but_weight(pa, pb),
        alike(a, b),
        sound(pa, a),
        0 <= cur < a.nodes.len(),
    ensures
        alike(offer(pa, a, cur, c), offer(pb, b, cur, c)),
{
    lemma_alike_listed(a, b, a.open, c);
    lemma_alike_listed(a, b, a.closed, c);
    assert(pa.enterable(c) == pb.enterable(c));
    assert(a.nodes[cur].g == b.nodes[cur].g);
    if pa.enterable(c) && listed(a.nodes, a.open, c) {
        lemma_first_at_exists(a.nodes, a.open, c);
        let j = a.open[first_at(a.nodes, a.open, c)];
        assert(0 <= j < a.nodes.len());
        assert(a.nodes[j].g == b.nodes[j].g);
    }
}

/// Offering the same candidates to alike states gives alike states.
proof fn lemma_offer_all_alike(
    pa: Problem,
    pb: Problem,
    a: SearchState,
    b: SearchState,
    cur: int,
    cands: Seq<Coord>,
)
    requires
        same_but_weight(pa, pb),
        alike(a, b),
        sound(pa, a),
        a.outcome is Running,
        a.closed.contains(cur),
        forall|j: int|
            0 <= j < cands.len() ==> pa.diagonal.neighbours(pa.cost, a.nodes[cur].xy).contains(
                #[trigger] cands[j],
            ),
    ensures
        alike(offer_all(pa, a, cur, cands), offer_all(pb, b, cur, cands)),
    decreases cands.len(),
{
    if cands.len() > 0 {
        let front = cands.drop_last();
        lemma_offer_all_alike(pa, pb, a, b, cur, front);
        lemma_offer_all_sound(pa, a, cur, front);
        lemma_offer_alike(
            pa,
            pb,
            offer_all(pa, a, cur, front),
            offer_all(pb, b, cur, front),
            cur,
            cands.last(),
        );
    }
}

/// Steps from alike queues give alike states.
proof fn lemma_step_alike(pa: Problem, pb: Problem, k: int, a: SearchState, b: SearchState)
    requires
        same_but_weight(pa, pb),
        uniform_cost(pa, k),
        blind(pa),
        alike(a, b),
        sound(pa, a),
        sound(pb, b),
        in_queue(pa, k, a),
        in_queue(pb, k, b),
    ensures
        alike(step(pa, a), step(pb, b)),
{
    if a.outcome is Running && a.open.len() > 0 {
        lemma_front_selected(pa, a, level_of(a), pa.terrain_weight * k);
        lemma_front_selected(pb, b, level_of(b), pb.terrain_weight * k);
        lemma_close_sound(pa, a);
        let cur = a.open[0];
        assert(a.nodes[cur].xy == b.nodes[cur].xy);
        if (pa.goal)(a.nodes[cur].xy) {
            lemma_alike_paths(a.nodes, b.nodes, cur);
        } else {
            let base_a = SearchState { open: a.open.remove(0), closed: a.closed.push(cur), ..a };
            let base_b = SearchState { open: b.open.remove(0), closed: b.closed.push(cur), ..b };
            assert(alike(base_a, base_b));
            let cands = pa.diagonal.neighbours(pa.cost, a.nodes[cur].xy);
            lemma_offer_all_alike(pa, pb, base_a, base_b, cur, cands);
        }
    }
}

/// Two blind searches over the same uniform costs are alike after every
/// number of steps, whatever factor each gives the cost.
pub proof fn lemma_run_alike(pa: Problem, pb: Problem, k: int, n: nat)
    requires
        same_but_weight(pa, pb),
        uniform_cost(pa, k),
        blind(pa),
    ensures
        alike(run(pa, n), run(pb, n)),
    decreases n,
{
    if n > 0 {
        let m = (n - 1) as nat;
        lemma_run_alike(pa, pb, k, m);
        lemma_run_sound(pa, m);
        lemma_run_sound(pb, m);
        assert(uniform_cost(pb, k)) by {
            assert forall|c: Coord| #[trigger] pb.enterable(c) implies (pb.cost)(c) == k by {
                assert(pa.enterable(c));
            }
        }
        lemma_run_queued(pa, k, m);
        lemma_run_queued(pb, k, m);
        lemma_step_alike(pa, pb, k, run(pa, m), run(pb, m));
    }
}

/// Some node on cell `c` has a path length of `j` at most.
pub open spec fn known_within(nodes: Seq<NodeView>, c: Coord, j: int) -> bool {
    exists|i: int| 0 <= i < nodes.len() && (#[trigger] nodes[i]).xy == c && nodes[i].g <= j
}

/// Everything up to `level` steps from the start has been seen: no
/// expanded node is further than `level`, and along every walk each cell
/// up to place `level` has a node whose path length is its place at most.
pub open spec fn swept(p: Problem, s: SearchState, level: int) -> bool {
    &&& forall|m: int| 0 <= m < s.closed.len() ==> s.nodes[#[trigger] s.closed[m]].g <= level
    &&& forall|w: Seq<Coord>, j: int|
        p.is_walk(w) && 0 <= j < w.len() && j <= level ==> #[trigger] known_within(
            s.nodes,
            w[j],
            j,
        )
}

/// While the search runs, everything up to the level it works on has
/// been seen.
pub open spec fn in_sweep(p: Problem, s: SearchState) -> bool {
    s.outcome is Running ==> swept(p, s, level_of(s))
}

/// Once the frontier has moved on to the next level, a legal step from a
/// cell seen within `level` steps leads to a cell seen within one step
/// more.
proof fn lemma_swept_next(p: Problem, t: SearchState, level: int, shift: int, a: Coord, b: Coord)
    requires
        sound(p, t),
        thorough(p, t),
        t.outcome is Running,
        queued(t, level, shift),
        forall|m: int| 0 <= m < t.closed.len() ==> t.nodes[#[trigger] t.closed[m]].g <= level,
        t.open.len() > 0,
        t.nodes[t.open[0]].g == level + 1,
        known_within(t.nodes, a, level),
        p.legal_step(a, b),
    ensures
        known_within(t.nodes, b, level + 1),
{
    let i = choose|i: int| 0 <= i < t.nodes.len() && (#[trigger] t.nodes[i]).xy == a && t.nodes[i].g
        <= level;
    assert(t.open.contains(i) || t.closed.contains(i));
    assert(!t.open.contains(i)) by {
        if t.open.contains(i) {
            let x = choose|x: int| 0 <= x < t.open.len() && t.open[x] == i;
            if x > 0 {
                assert(t.nodes[t.open[0]].g <= t.nodes[t.open[x]].g);
            }
        }
    }
    let m = choose|m: int| 0 <= m < t.closed.len() && t.closed[m] == i;
    assert(p.legal_step(t.nodes[t.closed[m]].xy, b));
    assert(known(t.nodes, b));
    let i2 = choose|i2: int| 0 <= i2 < t.nodes.len() && (#[trigger] t.nodes[i2]).xy == b;
    assert(t.open.contains(i2) || t.closed.contains(i2));
    if t.open.contains(i2) {
        let x = choose|x: int| 0 <= x < t.open.len() && t.open[x] == i2;
        assert(level <= t.nodes[t.open[x]].g <= level + 1);
    } else {
        let m2 = choose|m2: int| 0 <= m2 < t.closed.len() && t.closed[m2] == i2;
        assert(t.nodes[t.closed[m2]].g <= level);
    }
}

/// What was seen stays seen in an arena that keeps its nodes.
proof fn lemma_kept_known(before: Seq<NodeView>, after: Seq<NodeView>, c: Coord, j: int)
    requires
        kept(before, after),
        known_within(before, c, j),
    ensures
        known_within(after, c, j),
{
    let i = choose|i: int| 0 <= i < before.len() && (#[trigger] before[i]).xy == c && before[i].g
        <= j;
    assert(after[i] == before[i]);
}

/// The state after the step of a running queue that expanded a node: it
/// is a queue at the old level, its arena keeps the old nodes, nothing
/// expanded lies beyond the old level, and the level it works on next is
/// the old one or one more.
proof fn lemma_step_levels(p: Problem, k: int, s: SearchState)
    requires
        uniform_cost(p, k),
        blind(p),
        sound(p, s),
        in_queue(p, k, s),
        s.outcome is Running,
        s.open.len() > 0,
        !(p.goal)(s.nodes[s.open[selected(s.nodes, s.open)]].xy),
        forall|m: int| 0 <= m < s.closed.len() ==> s.nodes[#[trigger] s.closed[m]].g <= level_of(s),
    ensures
        step(p, s).outcome is Running,
        queued(step(p, s), level_of(s), p.terrain_weight * k),
        kept(s.nodes, step(p, s).nodes),
        forall|m: int|
            0 <= m < step(p, s).closed.len() ==> step(p, s).nodes[#[trigger] step(
                p,
                s,
            ).closed[m]].g <= level_of(s),
        level_of(s) <= level_of(step(p, s)) <= level_of(s) + 1,
{
    let shift = p.terrain_weight * k;
    let level = level_of(s);
    lemma_front_selected(p, s, level, shift);
    lemma_close_sound(p, s);
    let cur = s.open[0];
    let shut = s.closed.push(cur);
    let base = SearchState { open: s.open.remove(0), closed: shut, ..s };
    let cands = p.diagonal.neighbours(p.cost, s.nodes[cur].xy);
    lemma_close_queued(p, s, level, shift);
    lemma_offer_all_sound(p, base, cur, cands);
    lemma_offer_all_queued(p, k, base, cur, cands, level);
    let t = offer_all(p, base, cur, cands);
    assert(t == step(p, s));
    assert(t.closed == shut);
    assert forall|m: int| 0 <= m < t.closed.len() implies t.nodes[#[trigger] t.closed[m]].g
        <= level by {
        assert(0 <= shut[m] < s.nodes.len());
        assert(t.nodes[shut[m]] == s.nodes[shut[m]]);
        if m < s.closed.len() {
            assert(shut[m] == s.closed[m]);
        }
    }
    if t.open.len() > 0 {
        assert(level <= t.nodes[t.open[0]].g <= level + 1);
    } else {
        assert(shut.last() == cur);
        assert(t.nodes[cur] == s.nodes[cur]);
    }
}

/// A step keeps the sweep.
proof fn lemma_step_swept(p: Problem, k: int, s: SearchState)
    requires
        uniform_cost(p, k),
        blind(p),
        sound(p, s),
        thorough(p, s),
        in_queue(p, k, s),
        in_sweep(p, s),
    ensures
        in_sweep(p, step(p, s)),
{
    if s.outcome is Running && s.open.len() > 0 {
        let level = level_of(s);
        let t = step(p, s);
        if !(p.goal)(s.nodes[s.open[selected(s.nodes, s.open)]].xy) {
            lemma_step_levels(p, k, s);
            lemma_step_sound(p, s);
            lemma_step_thorough(p, s);
            let next = level_of(t);
            assert forall|w: Seq<Coord>, j: int|
                p.is_walk(w) && 0 <= j < w.len() && j <= next implies #[trigger] known_within(
                t.nodes,
                w[j],
                j,
            ) by {
                if j <= level {
                    assert(known_within(s.nodes, w[j], j));
                    lemma_kept_known(s.nodes, t.nodes, w[j], j);
                } else {
                    assert(known_within(s.nodes, w[j - 1], j - 1));
                    lemma_kept_known(s.nodes, t.nodes, w[j - 1], j - 1);
                    assert(p.legal_step(w[j - 1], w[j - 1 + 1]));
                    lemma_swept_next(p, t, level, p.terrain_weight * k, w[j - 1], w[j]);
                }
            }
            assert forall|m: int| 0 <= m < t.closed.len() implies t.nodes[#[trigger] t.closed[m]].g
                <= next by {
                assert(t.nodes[t.closed[m]].g <= level);
            }
        }
    }
}

/// Every state of a blind search over uniform costs is in sweep.
pub proof fn lemma_run_swept(p: Problem, k: int, n: nat)
    requires
        uniform_cost(p, k),
        blind(p),
    ensures
        in_sweep(p, run(p, n)),
    decreases n,
{
    if n == 0 {
        let s = initial(p);
        assert forall|w: Seq<Coord>, j: int|
            p.is_walk(w) && 0 <= j < w.len() && j <= 0 implies #[trigger] known_within(
            s.nodes,
            w[j],
            j,
        ) by {
            assert(s.nodes[0].xy == w[0]);
        }
    } else {
        let m = (n - 1) as nat;
        lemma_run_swept(p, k, m);
        lemma_run_queued(p, k, m);
        lemma_run_thorough(p, m);
        lemma_step_swept(p, k, run(p, m));
    }
}

/// The path that a blind search over uniform costs reports has the
/// fewest steps of all walks from the start to a goal.
pub proof fn lemma_blind_is_shortest(
    p: Problem,
    k: int,
    n: nat,
    path: Seq<Coord>,
    other: Seq<Coord>,
)
    requires
        uniform_cost(p, k),
        blind(p),
        run(p, n).outcome == Outcome::Found(path),
        p.is_solution(other),
    ensures
        path.len() <= other.len(),
    decreases n,
{
    if n > 0 {
        let m = (n - 1) as nat;
        let s = run(p, m);
        if s.outcome is Running {
            lemma_run_thorough(p, m);
            lemma_run_queued(p, k, m);
            lemma_run_swept(p, k, m);
            let level = level_of(s);
            if s.open.len() > 0 {
                lemma_front_selected(p, s, level, p.terrain_weight * k);
                lemma_close_sound(p, s);
                let cur = s.open[0];
                if (p.goal)(s.nodes[cur].xy) {
                    lemma_path_to_walk(p, s, cur);
                    let j = other.len() - 1;
                    if j < level {
                        assert(known_within(s.nodes, other[j], j));
                        let i = choose|i: int|
                            0 <= i < s.nodes.len() && (#[trigger] s.nodes[i]).xy == other[j]
                                && s.nodes[i].g <= j;
                        assert(s.open.contains(i) || s.closed.contains(i));
                        assert(!s.open.contains(i)) by {
                            if s.open.contains(i) {
                                let a = choose|a: int| 0 <= a < s.open.len() && s.open[a] == i;
                                assert(level <= s.nodes[s.open[a]].g);
                            }
                        }
                        let c = choose|c: int| 0 <= c < s.closed.len() && s.closed[c] == i;
                        assert(!(p.goal)(s.nodes[s.closed[c]].xy));
                    }
                } else {
                    let base = SearchState {
                        open: s.open.remove(0),
                        closed: s.closed.push(cur),
                        ..s
                    };
                    let cands = p.diagonal.neighbours(p.cost, s.nodes[cur].xy);
                    lemma_offer_all_sound(p, base, cur, cands);
                }
            }
        } else {
            lemma_blind_is_shortest(p, k, m, path, other);
        }
    }
}

} // verus!
