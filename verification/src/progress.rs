//! Why the search finds what can be found: expanded nodes leave nothing
//! around them unseen, no goal is ever expanded, and every step that does
//! not end the search expands one more cell of a finite grid.

use vstd::prelude::*;
use crate::models::Coord;
use crate::search::{offer_all, path_to, run, selected, step, Outcome, Problem, SearchState};
use crate::shape::{
    known, lemma_arena_fits_grid, lemma_close_sound, lemma_distinct_below, lemma_offer_all_sound,
    lemma_run_sound, linked, sound,
};

verus! {

/// Around every expanded node, each cell that a legal step leads to has a
/// node; no expanded node sits on a goal; and a path, once reported, is a
/// solution.
pub open spec fn thorough(p: Problem, s: SearchState) -> bool {
    &&& forall|m: int, b: Coord|
        0 <= m < s.closed.len() && #[trigger] p.legal_step(s.nodes[s.closed[m]].xy, b) ==> known(
            s.nodes,
            b,
        )
    &&& forall|m: int| 0 <= m < s.closed.len() ==> !(p.goal)(s.nodes[#[trigger] s.closed[m]].xy)
    &&& match s.outcome {
        Outcome::Found(path) => p.is_solution(path),
        _ => true,
    }
}

/// Following parent links from node `i` gives a walk from the start to
/// the node's cell, one cell longer than the node's path length.
pub proof fn lemma_path_to_walk(p: Problem, s: SearchState, i: int)
    requires
        sound(p, s),
        0 <= i < s.nodes.len(),
    ensures
        p.is_walk(path_to(s.nodes, i)),
        path_to(s.nodes, i).last() == s.nodes[i].xy,
        path_to(s.nodes, i).len() == s.nodes[i].g + 1,
    decreases s.nodes[i].g,
{
    if i == 0 {
        assert(0 <= s.nodes[0].g <= 0);
        assert(path_to(s.nodes, 0) =~= seq![p.start]);
    } else {
        assert(linked(p, s, i));
        let q = s.nodes[i].parent->0;
        assert(0 <= s.nodes[q].g <= q);
        lemma_path_to_walk(p, s, q);
        let before = path_to(s.nodes, q);
        let path = path_to(s.nodes, i);
        assert(path == before.push(s.nodes[i].xy));
        assert forall|k: int| 0 <= k < path.len() - 1 implies p.legal_step(
            #[trigger] path[k],
            path[k + 1],
        ) by {
            if k < before.len() - 1 {
                assert(p.legal_step(before[k], before[k + 1]));
            } else {
                assert(path[k] == before.last());
            }
        }
    }
}

/// The cell at place `k` of the path to node `i` belongs to a node of
/// path length `k`.
pub proof fn lemma_path_to_levels(p: Problem, s: SearchState, i: int, k: int) -> (a: int)
    requires
        sound(p, s),
        0 <= i < s.nodes.len(),
        0 <= k < path_to(s.nodes, i).len(),
    ensures
        0 <= a < s.nodes.len(),
        s.nodes[a].g == k,
        s.nodes[a].xy == path_to(s.nodes, i)[k],
    decreases s.nodes[i].g,
{
    lemma_path_to_walk(p, s, i);
    if i == 0 {
        assert(0 <= s.nodes[0].g <= 0);
        0
    } else {
        assert(linked(p, s, i));
        let q = s.nodes[i].parent->0;
        assert(0 <= s.nodes[q].g <= q);
        lemma_path_to_walk(p, s, q);
        if k == s.nodes[i].g {
            i
        } else {
            lemma_path_to_levels(p, s, q, k)
        }
    }
}

/// A step keeps the state thorough.
pub proof fn lemma_step_thorough(p: Problem, s: SearchState)
    requires
        sound(p, s),
        thorough(p, s),
    ensures
        thorough(p, step(p, s)),
{
    if !(s.outcome is Running) {
    } else if s.open.len() == 0 {
    } else {
        lemma_close_sound(p, s);
        let k = selected(s.nodes, s.open);
        let cur = s.open[k];
        if (p.goal)(s.nodes[cur].xy) {
            lemma_path_to_walk(p, s, cur);
        } else {
            let shut = s.closed.push(cur);
            let base = SearchState { open: s.open.remove(k), closed: shut, ..s };
            let cands = p.diagonal.neighbours(p.cost, s.nodes[cur].xy);
            lemma_offer_all_sound(p, base, cur, cands);
            let t = offer_all(p, base, cur, cands);
            assert(t == step(p, s));
            assert(t.closed == shut);
            assert forall|m: int, b: Coord|
                0 <= m < t.closed.len() && #[trigger] p.legal_step(
                    t.nodes[t.closed[m]].xy,
                    b,
                ) implies known(t.nodes, b) by {
                assert(t.nodes[base.closed[m]] == base.nodes[base.closed[m]]);
                if m < s.closed.len() {
                    assert(shut[m] == s.closed[m]);
                    assert(p.legal_step(s.nodes[s.closed[m]].xy, b));
                    assert(known(s.nodes, b));
                    let i = choose|i: int| 0 <= i < s.nodes.len() && (#[trigger] s.nodes[i]).xy == b;
                    assert(t.nodes[i].xy == b);
                } else {
                    assert(shut[m] == cur);
                    assert(cands.contains(b));
                    let j = choose|j: int| 0 <= j < cands.len() && cands[j] == b;
                    assert(p.enterable(cands[j]));
                }
            }
            assert forall|m: int| 0 <= m < t.closed.len() implies !(p.goal)(
                t.nodes[#[trigger] t.closed[m]].xy,
            ) by {
                assert(t.nodes[base.closed[m]] == base.nodes[base.closed[m]]);
                if m < s.closed.len() {
                    assert(shut[m] == s.closed[m]);
                } else {
                    assert(shut[m] == cur);
                }
            }
        }
    }
}

/// Every state that the search reaches is thorough.
pub proof fn lemma_run_thorough(p: Problem, n: nat)
    ensures
        sound(p, run(p, n)),
        thorough(p, run(p, n)),
    decreases n,
{
    lemma_run_sound(p, n);
    if n > 0 {
        lemma_run_thorough(p, (n - 1) as nat);
        lemma_step_thorough(p, run(p, (n - 1) as nat));
    }
}

/// Once the frontier is empty, every cell along a walk has a node.
pub proof fn lemma_walk_known(p: Problem, s: SearchState, path: Seq<Coord>, k: int)
    requires
        sound(p, s),
        thorough(p, s),
        !(s.outcome is Found),
        s.open.len() == 0,
        p.is_walk(path),
        0 <= k < path.len(),
    ensures
        known(s.nodes, path[k]),
    decreases k,
{
    if k == 0 {
        assert(s.nodes[0].xy == path[0]);
    } else {
        lemma_walk_known(p, s, path, k - 1);
        let i = choose|i: int| 0 <= i < s.nodes.len() && (#[trigger] s.nodes[i]).xy == path[k - 1];
        assert(s.open.contains(i) || s.closed.contains(i));
        assert(s.closed.contains(i));
        let m = choose|m: int| 0 <= m < s.closed.len() && s.closed[m] == i;
        assert(p.legal_step(path[k - 1], path[k]));
        assert(p.legal_step(s.nodes[s.closed[m]].xy, path[k]));
    }
}

/// A search whose frontier ran dry has seen every reachable cell, and
/// none of them was a goal.
pub proof fn lemma_dry_frontier(p: Problem, s: SearchState)
    requires
        sound(p, s),
        thorough(p, s),
        !(s.outcome is Found),
        s.open.len() == 0,
    ensures
        !p.solvable(),
{
    if p.solvable() {
        let c = choose|c: Coord| #[trigger] p.reachable(c) && (p.goal)(c);
        let path = choose|path: Seq<Coord>| #[trigger] p.is_walk(path) && path.last() == c;
        lemma_walk_known(p, s, path, path.len() - 1);
        let i = choose|i: int| 0 <= i < s.nodes.len() && (#[trigger] s.nodes[i]).xy == c;
        assert(s.open.contains(i) || s.closed.contains(i));
        let m = choose|m: int| 0 <= m < s.closed.len() && s.closed[m] == i;
        assert(!(p.goal)(s.nodes[s.closed[m]].xy));
    }
}

/// While the search runs, it has expanded one node per step taken.
pub proof fn lemma_running_counts(p: Problem, n: nat)
    requires
        run(p, n).outcome is Running,
    ensures
        run(p, n).closed.len() == n,
    decreases n,
{
    if n > 0 {
        let s = run(p, (n - 1) as nat);
        lemma_run_sound(p, (n - 1) as nat);
        if s.outcome is Running {
            lemma_running_counts(p, (n - 1) as nat);
            if s.open.len() > 0 {
                lemma_close_sound(p, s);
                let k = selected(s.nodes, s.open);
                let cur = s.open[k];
                if !(p.goal)(s.nodes[cur].xy) {
                    let base = SearchState {
                        open: s.open.remove(k),
                        closed: s.closed.push(cur),
                        ..s
                    };
                    let cands = p.diagonal.neighbours(p.cost, s.nodes[cur].xy);
                    lemma_offer_all_sound(p, base, cur, cands);
                }
            }
        }
    }
}

/// A search that still runs has taken at most as many steps as the grid
/// has cells.
pub proof fn lemma_running_bounded(p: Problem, n: nat)
    requires
        p.start.in_bounds(p.width, p.height),
        run(p, n).outcome is Running,
    ensures
        n <= p.width * p.height,
{
    let s = run(p, n);
    lemma_run_sound(p, n);
    lemma_running_counts(p, n);
    lemma_arena_fits_grid(p, s);
    lemma_distinct_below(s.closed, s.nodes.len() as int);
}

} // verus!
