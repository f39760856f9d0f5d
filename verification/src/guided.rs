//! The search whose estimate is the true number of steps that remain,
//! where every cell that can be entered costs the same: only nodes on
//! shortest paths to a goal are ever expanded, and the path found is a
//! shortest one.

use vstd::prelude::*;
use crate::models::{Coord, NodeView};
use crate::progress::lemma_path_to_walk;
use crate::search::{
    child, first_at, initial, listed, offer, offer_all, run, selected, step, Outcome, Problem,
    SearchState,
};
use crate::shape::{
    known, lemma_close_sound, lemma_first_at_exists, lemma_nodes_in_grid, lemma_offer_all_sound,
    lemma_offer_sound, lemma_run_sound, lemma_selected_exists, linked, sound,
};
use crate::uniform::uniform_cost;

verus! {

/// A cell one legal step from `c` whose estimate is one less, where there
/// is one.
pub open spec fn downhill(p: Problem, c: Coord) -> Coord {
    choose|b: Coord| p.legal_step(c, b) && (p.estimate)(b) == (p.estimate)(c) - 1
}

/// The estimate is the number of steps that remain: inside the grid it is
/// never negative and zero exactly on the goals, a legal step lowers it by
/// one at most, and from every cell with steps remaining some legal step
/// lowers it by one.
pub open spec fn guided(p: Problem) -> bool {
    &&& forall|c: Coord| c.in_bounds(p.width, p.height) ==> 0 <= #[trigger] (p.estimate)(c)
    &&& forall|c: Coord|
        c.in_bounds(p.width, p.height) ==> (#[trigger] (p.goal)(c) <==> (p.estimate)(c) == 0)
    &&& forall|a: Coord, b: Coord|
        a.in_bounds(p.width, p.height) && #[trigger] p.legal_step(a, b) ==> (p.estimate)(a) <= (
        p.estimate)(b) + 1
    &&& forall|c: Coord|
        c.in_bounds(p.width, p.height) && #[trigger] (p.estimate)(c) > 0 ==> p.legal_step(
            c,
            downhill(p, c),
        ) && (p.estimate)(downhill(p, c)) == (p.estimate)(c) - 1
}

/// A guided search over uniform costs: every cell that can be entered
/// costs `k`, costs are weighed by a factor that is not negative, and the
/// start lies inside the grid.
pub open spec fn well_posed(p: Problem, k: int) -> bool {
    &&& guided(p)
    &&& uniform_cost(p, k)
    &&& 0 <= k
    &&& 0 <= p.terrain_weight
    &&& p.start.in_bounds(p.width, p.height)
}

/// The node lies on a shortest path from the start to a goal: its path
/// length and its estimate add up to the estimate of the start.
pub open spec fn tight(p: Problem, node: NodeView) -> bool {
    node.g + (p.estimate)(node.xy) == (p.estimate)(p.start)
}

/// What holds of the nodes of a guided search: the root's priority is its
/// estimate, every other priority is path length plus estimate, shifted
/// by `shift`; no node undercuts the estimate of the start; and the arena
/// is in order of path length.
pub open spec fn ranked(p: Problem, shift: int, nodes: Seq<NodeView>) -> bool {
    &&& 0 <= shift
    &&& nodes[0].f == (p.estimate)(p.start)
    &&& forall|i: int|
        1 <= i < nodes.len() ==> (#[trigger] nodes[i]).f == nodes[i].g + (p.estimate)(nodes[i].xy)
            + shift
    &&& forall|i: int|
        0 <= i < nodes.len() ==> (#[trigger] nodes[i]).g + (p.estimate)(nodes[i].xy) >= (
        p.estimate)(p.start)
    &&& forall|i: int, j: int|
        0 <= i < j < nodes.len() ==> (#[trigger] nodes[i]).g <= (#[trigger] nodes[j]).g
}

/// The frontier is in order of arrival.
pub open spec fn ascending(open: Seq<int>) -> bool {
    forall|a: int, b: int| 0 <= a < b < open.len() ==> #[trigger] open[a] < #[trigger] open[b]
}

/// What holds while a guided search runs: the nodes are ranked, the
/// frontier is in order of arrival, every expanded node is tight and came
/// before every tight node of the frontier, and the frontier holds a tight
/// node.
pub open spec fn on_course(p: Problem, shift: int, s: SearchState) -> bool {
    &&& ranked(p, shift, s.nodes)
    &&& ascending(s.open)
    &&& forall|m: int| 0 <= m < s.closed.len() ==> tight(p, s.nodes[#[trigger] s.closed[m]])
    &&& forall|m: int, a: int|
        0 <= m < s.closed.len() && 0 <= a < s.open.len() && tight(p, s.nodes[#[trigger] s.open[a]])
            ==> #[trigger] s.closed[m] < s.open[a]
    &&& exists|a: int| 0 <= a < s.open.len() && tight(p, s.nodes[#[trigger] s.open[a]])
}

/// What holds while the candidates of the tight node `cur` are offered:
/// the nodes are ranked and none is more than one step longer than `cur`,
/// the frontier is in order of arrival, every expanded node is tight and
/// came no later than `cur`, and every tight node of the frontier came
/// after `cur`.
pub open spec fn underway(p: Problem, shift: int, s: SearchState, cur: int) -> bool {
    &&& ranked(p, shift, s.nodes)
    &&& forall|i: int| 0 <= i < s.nodes.len() ==> (#[trigger] s.nodes[i]).g <= s.nodes[cur].g + 1
    &&& ascending(s.open)
    &&& forall|m: int| 0 <= m < s.closed.len() ==> tight(p, s.nodes[#[trigger] s.closed[m]])
    &&& forall|m: int| 0 <= m < s.closed.len() ==> #[trigger] s.closed[m] <= cur
    &&& forall|a: int|
        0 <= a < s.open.len() && tight(p, s.nodes[#[trigger] s.open[a]]) ==> cur < s.open[a]
}

/// In a guided search the selected entry is tight, and every other tight
/// entry of the frontier arrived after it.
proof fn lemma_selected_tight(p: Problem, shift: int, s: SearchState)
    requires
        sound(p, s),
        s.outcome is Running,
        on_course(p, shift, s),
    ensures
        s.open.len() > 0,
        0 <= s.open[selected(s.nodes, s.open)] < s.nodes.len(),
        tight(p, s.nodes[s.open[selected(s.nodes, s.open)]]),
        forall|a: int|
            0 <= a < s.open.len() && a != selected(s.nodes, s.open) && tight(
                p,
                s.nodes[#[trigger] s.open[a]],
            ) ==> s.open[selected(s.nodes, s.open)] < s.open[a],
{
    let w = choose|a: int| 0 <= a < s.open.len() && tight(p, s.nodes[#[trigger] s.open[a]]);
    lemma_selected_exists(s.nodes, s.open);
    let sel = selected(s.nodes, s.open);
    let cur = s.open[sel];
    assert(0 <= cur < s.nodes.len());
    assert(0 <= s.open[w] < s.nodes.len());
    assert(s.nodes[cur].f <= s.nodes[s.open[w]].f);
    assert(s.nodes[cur].g + (p.estimate)(s.nodes[cur].xy) >= (p.estimate)(p.start));
    assert(0 <= s.nodes[0].g <= 0);
    assert(tight(p, s.nodes[cur]));
    assert forall|a: int|
        0 <= a < s.open.len() && a != sel && tight(p, s.nodes[#[trigger] s.open[a]]) implies s.open[sel]
        < s.open[a] by {
        assert(0 <= s.open[a] < s.nodes.len());
        if a < sel {
            assert(s.nodes[cur].f < s.nodes[s.open[a]].f);
            assert(s.open[a] != cur);
        } else {
            assert(s.open[sel] < s.open[a]);
        }
    }
}

/// One offer keeps the search underway.
proof fn lemma_offer_underway(p: Problem, k: int, s: SearchState, cur: int, c: Coord)
    requires
        well_posed(p, k),
        sound(p, s),
        s.outcome is Running,
        s.closed.contains(cur),
        p.diagonal.neighbours(p.cost, s.nodes[cur].xy).contains(c),
        underway(p, p.terrain_weight * k, s, cur),
    ensures
        underway(p, p.terrain_weight * k, offer(p, s, cur, c), cur),
{
    let shift = p.terrain_weight * k;
    let u = offer(p, s, cur, c);
    lemma_offer_sound(p, s, cur, c);
    lemma_nodes_in_grid(p, s, cur);
    assert(0 <= cur < s.nodes.len());
    if !p.enterable(c) {
    } else if listed(s.nodes, s.open, c) {
        lemma_first_at_exists(s.nodes, s.open, c);
        let j = s.open[first_at(s.nodes, s.open, c)];
        assert(0 <= j < s.nodes.len());
        assert(s.nodes[j].g <= s.nodes[cur].g + 1);
    } else if listed(s.nodes, s.closed, c) {
    } else {
        let n = s.nodes.len() as int;
        let fresh = child(p, s.nodes, cur, c);
        assert(u.nodes[n] == fresh);
        assert(u.nodes[cur] == s.nodes[cur]);
        assert(p.legal_step(s.nodes[cur].xy, c));
        assert((p.cost)(c) == k);
        assert(s.nodes[cur].g + (p.estimate)(s.nodes[cur].xy) >= (p.estimate)(p.start));
        assert(ranked(p, shift, u.nodes)) by {
            assert forall|i: int| 1 <= i < u.nodes.len() implies (#[trigger] u.nodes[i]).f
                == u.nodes[i].g + (p.estimate)(u.nodes[i].xy) + shift by {
                if i < n {
                    assert(u.nodes[i] == s.nodes[i]);
                }
            }
            assert forall|i: int| 0 <= i < u.nodes.len() implies (#[trigger] u.nodes[i]).g + (
            p.estimate)(u.nodes[i].xy) >= (p.estimate)(p.start) by {
                if i < n {
                    assert(u.nodes[i] == s.nodes[i]);
                }
            }
            assert forall|i: int, j: int| 0 <= i < j < u.nodes.len() implies (#[trigger] u.nodes[i]).g
                <= (#[trigger] u.nodes[j]).g by {
                assert(u.nodes[i] == s.nodes[i]);
                if j < n {
                    assert(u.nodes[j] == s.nodes[j]);
                    assert(s.nodes[i].g <= s.nodes[j].g);
                } else {
                    if i < cur {
                        assert(s.nodes[i].g <= s.nodes[cur].g);
                    } else if i > cur {
                        assert(s.nodes[i].g <= s.nodes[cur].g + 1);
                    }
                }
            }
        }
        assert forall|i: int| 0 <= i < u.nodes.len() implies (#[trigger] u.nodes[i]).g
            <= u.nodes[cur].g + 1 by {
            if i < n {
                assert(u.nodes[i] == s.nodes[i]);
            }
        }
        assert(ascending(u.open)) by {
            assert forall|a: int, b: int| 0 <= a < b < u.open.len() implies #[trigger] u.open[a]
                < #[trigger] u.open[b] by {
                assert(u.open[a] == s.open[a]);
                assert(0 <= s.open[a] < n);
                if b < s.open.len() {
                    assert(u.open[b] == s.open[b]);
                }
            }
        }
        assert forall|m: int| 0 <= m < u.closed.len() implies tight(
            p,
            u.nodes[#[trigger] u.closed[m]],
        ) by {
            assert(0 <= s.closed[m] < n);
            assert(tight(p, s.nodes[s.closed[m]]));
        }
        assert forall|a: int|
            0 <= a < u.open.len() && tight(p, u.nodes[#[trigger] u.open[a]]) implies cur
            < u.open[a] by {
            if a < s.open.len() {
                assert(u.open[a] == s.open[a]);
                assert(0 <= s.open[a] < n);
                assert(u.nodes[s.open[a]] == s.nodes[s.open[a]]);
            }
        }
    }
}

/// Offering all candidates keeps the search underway.
proof fn lemma_offer_all_underway(p: Problem, k: int, s: SearchState, cur: int, cands: Seq<Coord>)
    requires
        well_posed(p, k),
        sound(p, s),
        s.outcome is Running,
        s.closed.contains(cur),
        forall|j: int|
            0 <= j < cands.len() ==> p.diagonal.neighbours(p.cost, s.nodes[cur].xy).contains(
                #[trigger] cands[j],
            ),
        underway(p, p.terrain_weight * k, s, cur),
    ensures
        underway(p, p.terrain_weight * k, offer_all(p, s, cur, cands), cur),
    decreases cands.len(),
{
    if cands.len() > 0 {
        let front = cands.drop_last();
        let u0 = offer_all(p, s, cur, front);
        lemma_offer_all_sound(p, s, cur, front);
        lemma_offer_all_underway(p, k, s, cur, front);
        let m = choose|m: int| 0 <= m < s.closed.len() && s.closed[m] == cur;
        assert(u0.nodes[s.closed[m]] == s.nodes[s.closed[m]]);
        assert(p.diagonal.neighbours(p.cost, s.nodes[cur].xy).contains(cands[cands.len() - 1]));
        lemma_offer_underway(p, k, u0, cur, cands.last());
    }
}

/// Moving the selected entry to the expanded nodes leaves the search
/// underway from that entry.
proof fn lemma_close_underway(p: Problem, shift: int, s: SearchState)
    requires
        sound(p, s),
        s.outcome is Running,
        on_course(p, shift, s),
    ensures
        ({
            let sel = selected(s.nodes, s.open);
            let cur = s.open[sel];
            let base = SearchState { open: s.open.remove(sel), closed: s.closed.push(cur), ..s };
            underway(p, shift, base, cur)
        }),
{
    lemma_selected_tight(p, shift, s);
    lemma_close_sound(p, s);
    let sel = selected(s.nodes, s.open);
    let cur = s.open[sel];
    let rest = s.open.remove(sel);
    let shut = s.closed.push(cur);
    let base = SearchState { open: rest, closed: shut, ..s };
    assert forall|i: int| 0 <= i < base.nodes.len() implies (#[trigger] base.nodes[i]).g
        <= base.nodes[cur].g + 1 by {
        if i > cur {
            assert(linked(p, s, i));
            let q = s.nodes[i].parent->0;
            let m = choose|m: int| 0 <= m < s.closed.len() && s.closed[m] == q;
            assert(s.closed[m] < s.open[sel]);
            assert(s.nodes[q].g <= s.nodes[cur].g);
        } else if i < cur {
            assert(s.nodes[i].g <= s.nodes[cur].g);
        }
    }
    assert(ascending(rest)) by {
        assert forall|a: int, b: int| 0 <= a < b < rest.len() implies #[trigger] rest[a]
            < #[trigger] rest[b] by {
            let a2 = if a < sel { a } else { a + 1 };
            let b2 = if b < sel { b } else { b + 1 };
            assert(rest[a] == s.open[a2]);
            assert(rest[b] == s.open[b2]);
            assert(s.open[a2] < s.open[b2]);
        }
    }
    assert forall|m: int| 0 <= m < shut.len() implies tight(p, base.nodes[#[trigger] shut[m]]) by {
        if m < s.closed.len() {
            assert(shut[m] == s.closed[m]);
        }
    }
    assert forall|m: int| 0 <= m < shut.len() implies #[trigger] shut[m] <= cur by {
        if m < s.closed.len() {
            assert(shut[m] == s.closed[m]);
            assert(s.closed[m] < s.open[sel]);
        }
    }
    assert forall|a: int|
        0 <= a < rest.len() && tight(p, base.nodes[#[trigger] rest[a]]) implies cur < rest[a] by {
        let a2 = if a < sel { a } else { a + 1 };
        assert(rest[a] == s.open[a2]);
        assert(tight(p, s.nodes[s.open[a2]]));
    }
}

/// After the candidates of a tight node that sits on no goal were
/// offered, the frontier holds a tight node: the one on the cell downhill.
proof fn lemma_tight_successor(p: Problem, k: int, u: SearchState, cur: int)
    requires
        well_posed(p, k),
        sound(p, u),
        u.outcome is Running,
        0 <= cur < u.nodes.len(),
        tight(p, u.nodes[cur]),
        !(p.goal)(u.nodes[cur].xy),
        underway(p, p.terrain_weight * k, u, cur),
        forall|c: Coord| p.legal_step(u.nodes[cur].xy, c) ==> #[trigger] known(u.nodes, c),
    ensures
        exists|a: int| 0 <= a < u.open.len() && tight(p, u.nodes[#[trigger] u.open[a]]),
{
    lemma_nodes_in_grid(p, u, cur);
    let here = u.nodes[cur].xy;
    assert(0 <= (p.estimate)(here));
    assert((p.estimate)(here) > 0);
    let b = downhill(p, here);
    assert(p.legal_step(here, b));
    assert(known(u.nodes, b));
    let i = choose|i: int| 0 <= i < u.nodes.len() && (#[trigger] u.nodes[i]).xy == b;
    assert(u.nodes[i].g <= u.nodes[cur].g + 1);
    assert(u.nodes[i].g + (p.estimate)(u.nodes[i].xy) >= (p.estimate)(p.start));
    assert(tight(p, u.nodes[i]));
    assert(u.open.contains(i) || u.closed.contains(i));
    assert(!u.closed.contains(i)) by {
        if u.closed.contains(i) {
            let m = choose|m: int| 0 <= m < u.closed.len() && u.closed[m] == i;
            assert(u.closed[m] <= cur);
            if i < cur {
                assert(u.nodes[i].g <= u.nodes[cur].g);
            }
        }
    }
    let a = choose|a: int| 0 <= a < u.open.len() && u.open[a] == i;
    assert(tight(p, u.nodes[u.open[a]]));
}

/// A search that is underway from an expanded node and has a tight node
/// on its frontier is on course.
proof fn lemma_underway_on_course(p: Problem, shift: int, u: SearchState, cur: int)
    requires
        underway(p, shift, u, cur),
        exists|a: int| 0 <= a < u.open.len() && tight(p, u.nodes[#[trigger] u.open[a]]),
    ensures
        on_course(p, shift, u),
{
    assert forall|m: int, a: int|
        0 <= m < u.closed.len() && 0 <= a < u.open.len() && tight(
            p,
            u.nodes[#[trigger] u.open[a]],
        ) implies #[trigger] u.closed[m] < u.open[a] by {
        assert(u.closed[m] <= cur);
    }
}

/// While a guided search runs it is on course.
pub open spec fn steered(p: Problem, k: int, s: SearchState) -> bool {
    s.outcome is Running ==> on_course(p, p.terrain_weight * k, s)
}

/// A step keeps a guided search on course.
proof fn lemma_step_steered(p: Problem, k: int, s: SearchState)
    requires
        well_posed(p, k),
        sound(p, s),
        steered(p, k, s),
    ensures
        steered(p, k, step(p, s)),
{
    let shift = p.terrain_weight * k;
    if s.outcome is Running {
        lemma_selected_tight(p, shift, s);
        lemma_close_sound(p, s);
        let sel = selected(s.nodes, s.open);
        let cur = s.open[sel];
        if !(p.goal)(s.nodes[cur].xy) {
            let base = SearchState { open: s.open.remove(sel), closed: s.closed.push(cur), ..s };
            let cands = p.diagonal.neighbours(p.cost, s.nodes[cur].xy);
            lemma_close_underway(p, shift, s);
            lemma_offer_all_sound(p, base, cur, cands);
            lemma_offer_all_underway(p, k, base, cur, cands);
            let u = offer_all(p, base, cur, cands);
            assert(u == step(p, s));
            let m_cur = choose|m: int| 0 <= m < base.closed.len() && base.closed[m] == cur;
            assert(u.nodes[base.closed[m_cur]] == base.nodes[base.closed[m_cur]]);
            assert forall|c: Coord| p.legal_step(u.nodes[cur].xy, c) implies #[trigger] known(
                u.nodes,
                c,
            ) by {
                assert(cands.contains(c));
                let j = choose|j: int| 0 <= j < cands.len() && cands[j] == c;
                assert(p.enterable(cands[j]));
            }
            lemma_tight_successor(p, k, u, cur);
            lemma_underway_on_course(p, shift, u, cur);
        }
    }
}

/// Every state of a guided search over uniform costs is on course.
pub proof fn lemma_run_steered(p: Problem, k: int, n: nat)
    requires
        well_posed(p, k),
    ensures
        steered(p, k, run(p, n)),
    decreases n,
{
    if n == 0 {
        let s = initial(p);
        assert(0 <= p.terrain_weight * k) by (nonlinear_arith)
            requires
                0 <= p.terrain_weight,
                0 <= k,
        ;
        assert(tight(p, s.nodes[s.open[0]]));
    } else {
        let m = (n - 1) as nat;
        lemma_run_steered(p, k, m);
        lemma_run_sound(p, m);
        lemma_step_steered(p, k, run(p, m));
    }
}

/// The path that a guided search over uniform costs reports ends on a
/// goal and has as many steps as the start was estimated to need.
pub proof fn lemma_guided_is_shortest(p: Problem, k: int, n: nat, path: Seq<Coord>)
    requires
        well_posed(p, k),
        run(p, n).outcome == Outcome::Found(path),
    ensures
        path.len() - 1 == (p.estimate)(p.start),
        (p.goal)(path.last()),
    decreases n,
{
    if n > 0 {
        let m = (n - 1) as nat;
        let s = run(p, m);
        if s.outcome is Running {
            lemma_run_sound(p, m);
            lemma_run_steered(p, k, m);
            lemma_selected_tight(p, p.terrain_weight * k, s);
            lemma_close_sound(p, s);
            let sel = selected(s.nodes, s.open);
            let cur = s.open[sel];
            if (p.goal)(s.nodes[cur].xy) {
                lemma_path_to_walk(p, s, cur);
                lemma_nodes_in_grid(p, s, cur);
            } else {
                let base = SearchState {
                    open: s.open.remove(sel),
                    closed: s.closed.push(cur),
                    ..s
                };
                let cands = p.diagonal.neighbours(p.cost, s.nodes[cur].xy);
                lemma_offer_all_sound(p, base, cur, cands);
            }
        } else {
            lemma_guided_is_shortest(p, k, m, path);
        }
    }
}

/// No walk from a cell of the grid to a goal is shorter than the cell's
/// estimate: the estimate of a guided problem is a lower bound on the
/// steps that remain.
pub proof fn lemma_estimate_is_lower_bound(p: Problem, walk: Seq<Coord>, i: int)
    requires
        guided(p),
        walk.len() >= 1,
        0 <= i < walk.len(),
        forall|j: int| 0 <= j < walk.len() ==> (#[trigger] walk[j]).in_bounds(p.width, p.height),
        forall|j: int| 0 <= j < walk.len() - 1 ==> p.legal_step(#[trigger] walk[j], walk[j + 1]),
        (p.goal)(walk.last()),
    ensures
        (p.estimate)(walk[i]) <= walk.len() - 1 - i,
    decreases walk.len() - i,
{
    if i == walk.len() - 1 {
        assert(walk[i] == walk.last());
    } else {
        lemma_estimate_is_lower_bound(p, walk, i + 1);
        assert(p.legal_step(walk[i], walk[i + 1]));
    }
}

} // verus!
