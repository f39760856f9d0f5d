//! What holds of every state that the search can be in, and why each step
//! keeps it so.

use vstd::prelude::*;
use crate::models::{Coord, NodeView};
use crate::search::{
    Problem, SearchState, is_selected, selected, sits_at, listed, is_first_at, first_at, child,
    offer, offer_all, step, run, initial,
};

verus! {

/// Node `i` hangs from an expanded node, one legal step and one unit of
/// path length further from the root.
pub open spec fn linked(p: Problem, s: SearchState, i: int) -> bool {
    match s.nodes[i].parent {
        Some(q) => {
            &&& 0 <= q < s.nodes.len()
            &&& s.closed.contains(q)
            &&& s.nodes[i].g == s.nodes[q].g + 1
            &&& p.legal_step(s.nodes[q].xy, s.nodes[i].xy)
        },
        None => false,
    }
}

/// Every entry of `list` names a node of the arena.
pub open spec fn names_nodes(list: Seq<int>, len: int) -> bool {
    forall|k: int| 0 <= k < list.len() ==> 0 <= #[trigger] list[k] < len
}

/// No node is named by both lists.
pub open spec fn apart(open: Seq<int>, closed: Seq<int>) -> bool {
    forall|k: int, m: int|
        0 <= k < open.len() && 0 <= m < closed.len() ==> #[trigger] open[k] != #[trigger] closed[m]
}

/// No two nodes sit on the same cell.
pub open spec fn one_node_per_cell(nodes: Seq<NodeView>) -> bool {
    forall|i: int, j: int|
        0 <= i < j < nodes.len() ==> (#[trigger] nodes[i]).xy != (#[trigger] nodes[j]).xy
}

/// The shape of a state: a tree of nodes rooted at the start, one node per
/// cell, each node but the root hanging from an expanded node, and the
/// frontier and the expanded nodes sharing the arena between them until a
/// path is found.
pub open spec fn sound(p: Problem, s: SearchState) -> bool {
    &&& s.nodes.len() >= 1
    &&& s.nodes[0].xy == p.start
    &&& s.nodes[0].parent is None
    &&& forall|i: int| 0 <= i < s.nodes.len() ==> 0 <= (#[trigger] s.nodes[i]).g <= i
    &&& forall|i: int| 1 <= i < s.nodes.len() ==> #[trigger] linked(p, s, i)
    &&& one_node_per_cell(s.nodes)
    &&& names_nodes(s.open, s.nodes.len() as int)
    &&& names_nodes(s.closed, s.nodes.len() as int)
    &&& s.open.no_duplicates()
    &&& s.closed.no_duplicates()
    &&& apart(s.open, s.closed)
    &&& s.closed.len() > 0 ==> s.closed.contains(0)
    &&& !(s.outcome is Found) ==> forall|i: int|
        0 <= i < s.nodes.len() ==> s.open.contains(i) || #[trigger] s.closed.contains(i)
    &&& s.outcome is NoPath ==> s.open.len() == 0
}

/// A frontier that is not empty has a selected entry.
pub proof fn lemma_selected_exists(nodes: Seq<NodeView>, open: Seq<int>)
    requires
        open.len() > 0,
    ensures
        is_selected(nodes, open, selected(nodes, open)),
    decreases open.len(),
{
    if open.len() == 1 {
        assert(is_selected(nodes, open, 0));
    } else {
        let front = open.drop_last();
        lemma_selected_exists(nodes, front);
        let b = selected(nodes, front);
        let last = open.len() - 1;
        assert(forall|j: int| 0 <= j < front.len() ==> front[j] == open[j]);
        if nodes[open[last]].f < nodes[open[b]].f {
            assert forall|j: int| 0 <= j < open.len() implies nodes[open[last]].f <= nodes[#[trigger] open[j]].f by {
                if j < last {
                    assert(nodes[front[b]].f <= nodes[front[j]].f);
                }
            }
            assert forall|j: int| 0 <= j < last implies nodes[open[last]].f < nodes[#[trigger] open[j]].f by {
                assert(nodes[front[b]].f <= nodes[front[j]].f);
            }
            assert(is_selected(nodes, open, last));
        } else {
            assert forall|j: int| 0 <= j < open.len() implies nodes[open[b]].f <= nodes[#[trigger] open[j]].f by {
                if j < last {
                    assert(nodes[front[b]].f <= nodes[front[j]].f);
                }
            }
            assert forall|j: int| 0 <= j < b implies nodes[open[b]].f < nodes[#[trigger] open[j]].f by {
                assert(nodes[front[b]].f < nodes[front[j]].f);
            }
            assert(is_selected(nodes, open, b));
        }
    }
}

/// A list that holds a node on `c` has a first such entry.
pub proof fn lemma_first_at_exists(nodes: Seq<NodeView>, list: Seq<int>, c: Coord)
    requires
        listed(nodes, list, c),
    ensures
        is_first_at(nodes, list, c, first_at(nodes, list, c)),
{
    let w = choose|k: int| sits_at(nodes, list, c, k);
    lemma_first_at_below(nodes, list, c, w);
}

proof fn lemma_first_at_below(nodes: Seq<NodeView>, list: Seq<int>, c: Coord, w: int)
    requires
        sits_at(nodes, list, c, w),
    ensures
        is_first_at(nodes, list, c, first_at(nodes, list, c)),
    decreases w,
{
    if exists|j: int| 0 <= j < w && nodes[#[trigger] list[j]].xy == c {
        let j = choose|j: int| 0 <= j < w && nodes[#[trigger] list[j]].xy == c;
        assert(sits_at(nodes, list, c, j));
        lemma_first_at_below(nodes, list, c, j);
    } else {
        assert(is_first_at(nodes, list, c, w));
    }
}

/// What [`offer`] leaves alone.
pub open spec fn extends(s: SearchState, t: SearchState) -> bool {
    &&& t.closed == s.closed
    &&& t.outcome == s.outcome
    &&& t.nodes.len() >= s.nodes.len()
    &&& t.open.len() >= s.open.len()
    &&& forall|i: int| 0 <= i < s.nodes.len() ==> (#[trigger] t.nodes[i]).xy == s.nodes[i].xy
    &&& forall|k: int| 0 <= k < s.open.len() ==> #[trigger] t.open[k] == s.open[k]
    &&& forall|m: int|
        0 <= m < s.closed.len() ==> t.nodes[#[trigger] s.closed[m]] == s.nodes[s.closed[m]]
}

/// Offering a candidate of an expanded node keeps the state sound.
pub proof fn lemma_offer_sound(p: Problem, s: SearchState, cur: int, c: Coord)
    requires
        sound(p, s),
        s.outcome is Running,
        s.closed.contains(cur),
        p.diagonal.neighbours(p.cost, s.nodes[cur].xy).contains(c),
    ensures
        sound(p, offer(p, s, cur, c)),
        extends(s, offer(p, s, cur, c)),
        p.enterable(c) ==> exists|i: int|
            0 <= i < offer(p, s, cur, c).nodes.len() && (#[trigger] offer(p, s, cur, c).nodes[i]).xy
                == c,
{
    let t = offer(p, s, cur, c);
    let n = s.nodes.len() as int;
    assert(0 <= cur < n);
    if !p.enterable(c) {
    } else if listed(s.nodes, s.open, c) {
        lemma_first_at_exists(s.nodes, s.open, c);
        let k = first_at(s.nodes, s.open, c);
        let j = s.open[k];
        assert(s.nodes[j].xy == c);
        assert(t.nodes[j].xy == c);
        if p.relax && s.nodes[cur].g + 1 < s.nodes[j].g {
            assert(s.closed.contains(0));
            assert(j != 0) by {
                let m = choose|m: int| 0 <= m < s.closed.len() && s.closed[m] == 0;
                assert(s.open[k] != s.closed[m]);
            }
            assert(j != cur) by {
                let m = choose|m: int| 0 <= m < s.closed.len() && s.closed[m] == cur;
                assert(s.open[k] != s.closed[m]);
            }
            assert forall|i: int| 1 <= i < t.nodes.len() implies #[trigger] linked(p, t, i) by {
                if i == j {
                    assert(t.nodes[cur] == s.nodes[cur]);
                } else {
                    assert(linked(p, s, i));
                    let q = s.nodes[i].parent->0;
                    assert(q != j) by {
                        let m = choose|m: int| 0 <= m < s.closed.len() && s.closed[m] == q;
                        assert(s.open[k] != s.closed[m]);
                    }
                }
            }
            assert forall|m: int| 0 <= m < s.closed.len() implies t.nodes[#[trigger] s.closed[m]]
                == s.nodes[s.closed[m]] by {
                assert(s.open[k] != s.closed[m]);
            }
            assert(one_node_per_cell(t.nodes)) by {
                assert forall|a: int, b: int| 0 <= a < b < t.nodes.len() implies (#[trigger] t.nodes[a]).xy
                    != (#[trigger] t.nodes[b]).xy by {
                    assert(s.nodes[a].xy != s.nodes[b].xy);
                }
            }
            assert(sound(p, t));
        }
    } else if listed(s.nodes, s.closed, c) {
        let m = choose|m: int| sits_at(s.nodes, s.closed, c, m);
        assert(s.nodes[s.closed[m]].xy == c);
    } else {
        let fresh = child(p, s.nodes, cur, c);
        assert(t.nodes[n] == fresh);
        assert forall|i: int| 0 <= i < n implies s.nodes[i].xy != c by {
            if s.open.contains(i) {
                let k = choose|k: int| 0 <= k < s.open.len() && s.open[k] == i;
                assert(!sits_at(s.nodes, s.open, c, k));
            } else {
                assert(s.closed.contains(i));
                let m = choose|m: int| 0 <= m < s.closed.len() && s.closed[m] == i;
                assert(!sits_at(s.nodes, s.closed, c, m));
            }
        }
        assert forall|i: int| 1 <= i < t.nodes.len() implies #[trigger] linked(p, t, i) by {
            if i < n {
                assert(linked(p, s, i));
            }
        }
        assert(one_node_per_cell(t.nodes)) by {
            assert forall|a: int, b: int| 0 <= a < b < t.nodes.len() implies (#[trigger] t.nodes[a]).xy
                != (#[trigger] t.nodes[b]).xy by {
                if b < n {
                    assert(s.nodes[a].xy != s.nodes[b].xy);
                } else {
                    assert(s.nodes[a].xy != c);
                }
            }
        }
        assert(t.open.no_duplicates()) by {
            assert forall|a: int, b: int| 0 <= a < t.open.len() && 0 <= b < t.open.len() && a != b implies t.open[a]
                != t.open[b] by {
                if a < s.open.len() {
                    assert(0 <= s.open[a] < n);
                }
                if b < s.open.len() {
                    assert(0 <= s.open[b] < n);
                }
            }
        }
        assert(apart(t.open, t.closed)) by {
            assert forall|k: int, m: int| 0 <= k < t.open.len() && 0 <= m < t.closed.len() implies #[trigger] t.open[k]
                != #[trigger] t.closed[m] by {
                if k < s.open.len() {
                    assert(s.open[k] != s.closed[m]);
                } else {
                    assert(0 <= s.closed[m] < n);
                }
            }
        }
        assert forall|i: int| 0 <= i < t.nodes.len() implies t.open.contains(i) || #[trigger] t.closed.contains(i) by {
            if i < n {
                if s.open.contains(i) {
                    let k = choose|k: int| 0 <= k < s.open.len() && s.open[k] == i;
                    assert(t.open[k] == i);
                }
            } else {
                assert(t.open[s.open.len() as int] == n);
            }
        }
        assert(names_nodes(t.open, t.nodes.len() as int)) by {
            assert forall|k: int| 0 <= k < t.open.len() implies 0 <= #[trigger] t.open[k] < t.nodes.len() by {
                if k < s.open.len() {
                    assert(0 <= s.open[k] < n);
                }
            }
        }
        assert(sound(p, t));
    }
}

/// Some node sits on cell `c`.
pub open spec fn known(nodes: Seq<NodeView>, c: Coord) -> bool {
    exists|i: int| 0 <= i < nodes.len() && (#[trigger] nodes[i]).xy == c
}

/// Offering all candidates of an expanded node keeps the state sound, and
/// afterwards every candidate that can be entered has a node.
pub proof fn lemma_offer_all_sound(p: Problem, s: SearchState, cur: int, cands: Seq<Coord>)
    requires
        sound(p, s),
        s.outcome is Running,
        s.closed.contains(cur),
        forall|k: int|
            0 <= k < cands.len() ==> p.diagonal.neighbours(p.cost, s.nodes[cur].xy).contains(
                #[trigger] cands[k],
            ),
    ensures
        sound(p, offer_all(p, s, cur, cands)),
        extends(s, offer_all(p, s, cur, cands)),
        forall|k: int|
            0 <= k < cands.len() && p.enterable(#[trigger] cands[k]) ==> known(
                offer_all(p, s, cur, cands).nodes,
                cands[k],
            ),
    decreases cands.len(),
{
    if cands.len() > 0 {
        let front = cands.drop_last();
        let t0 = offer_all(p, s, cur, front);
        lemma_offer_all_sound(p, s, cur, front);
        let m = choose|m: int| 0 <= m < s.closed.len() && s.closed[m] == cur;
        assert(t0.nodes[s.closed[m]] == s.nodes[s.closed[m]]);
        assert(p.diagonal.neighbours(p.cost, s.nodes[cur].xy).contains(cands[cands.len() - 1]));
        lemma_offer_sound(p, t0, cur, cands.last());
        let t = offer(p, t0, cur, cands.last());
        assert(extends(s, t)) by {
            assert forall|i: int| 0 <= i < s.nodes.len() implies (#[trigger] t.nodes[i]).xy
                == s.nodes[i].xy by {
                assert(t0.nodes[i].xy == s.nodes[i].xy);
            }
            assert forall|k: int| 0 <= k < s.open.len() implies #[trigger] t.open[k]
                == s.open[k] by {
                assert(t0.open[k] == s.open[k]);
            }
            assert forall|m: int| 0 <= m < s.closed.len() implies t.nodes[#[trigger] s.closed[m]]
                == s.nodes[s.closed[m]] by {
                assert(t0.nodes[t0.closed[m]] == s.nodes[s.closed[m]]);
                assert(t.nodes[t0.closed[m]] == t0.nodes[t0.closed[m]]);
            }
        }
        assert forall|k: int| 0 <= k < cands.len() && p.enterable(#[trigger] cands[k]) implies known(
            t.nodes,
            cands[k],
        ) by {
            if k < cands.len() - 1 {
                assert(front[k] == cands[k]);
                assert(known(t0.nodes, cands[k]));
                let i = choose|i: int| 0 <= i < t0.nodes.len() && (#[trigger] t0.nodes[i]).xy == cands[k];
                assert(t.nodes[i].xy == cands[k]);
            }
        }
    }
}

/// A step keeps the state sound.
pub proof fn lemma_step_sound(p: Problem, s: SearchState)
    requires
        sound(p, s),
    ensures
        sound(p, step(p, s)),
{
    if !(s.outcome is Running) {
    } else if s.open.len() == 0 {
        let t = step(p, s);
        assert forall|i: int| 1 <= i < t.nodes.len() implies #[trigger] linked(p, t, i) by {
            assert(linked(p, s, i));
        }
    } else {
        lemma_selected_exists(s.nodes, s.open);
        let k = selected(s.nodes, s.open);
        let cur = s.open[k];
        let rest = s.open.remove(k);
        assert(0 <= cur < s.nodes.len());
        assert(forall|j: int| 0 <= j < k ==> rest[j] == s.open[j]);
        assert(forall|j: int| k <= j < rest.len() ==> rest[j] == s.open[j + 1]);
        assert(rest.no_duplicates());
        assert(!rest.contains(cur)) by {
            if rest.contains(cur) {
                let j = choose|j: int| 0 <= j < rest.len() && rest[j] == cur;
                if j < k {
                    assert(s.open[j] == s.open[k]);
                } else {
                    assert(s.open[j + 1] == s.open[k]);
                }
            }
        }
        assert(!s.closed.contains(cur)) by {
            if s.closed.contains(cur) {
                let m = choose|m: int| 0 <= m < s.closed.len() && s.closed[m] == cur;
                assert(s.open[k] != s.closed[m]);
            }
        }
        assert(names_nodes(rest, s.nodes.len() as int));
        assert(apart(rest, s.closed)) by {
            assert forall|j: int, m: int| 0 <= j < rest.len() && 0 <= m < s.closed.len() implies #[trigger] rest[j]
                != #[trigger] s.closed[m] by {
                if j < k {
                    assert(s.open[j] != s.closed[m]);
                } else {
                    assert(s.open[j + 1] != s.closed[m]);
                }
            }
        }
        if (p.goal)(s.nodes[cur].xy) {
            let t = step(p, s);
            assert forall|i: int| 1 <= i < t.nodes.len() implies #[trigger] linked(p, t, i) by {
                assert(linked(p, s, i));
            }
        } else {
            let shut = s.closed.push(cur);
            let base = SearchState { open: rest, closed: shut, ..s };
            assert(shut[s.closed.len() as int] == cur);
            assert(forall|m: int| 0 <= m < s.closed.len() ==> shut[m] == s.closed[m]);
            assert(shut.contains(cur));
            assert(shut.no_duplicates());
            assert(apart(rest, shut)) by {
                assert forall|j: int, m: int| 0 <= j < rest.len() && 0 <= m < shut.len() implies #[trigger] rest[j]
                    != #[trigger] shut[m] by {
                    if m < s.closed.len() {
                        assert(rest[j] != s.closed[m]);
                    } else {
                        assert(rest.contains(rest[j]));
                    }
                }
            }
            assert forall|i: int| 1 <= i < base.nodes.len() implies #[trigger] linked(p, base, i) by {
                assert(linked(p, s, i));
                let q = s.nodes[i].parent->0;
                let m = choose|m: int| 0 <= m < s.closed.len() && s.closed[m] == q;
                assert(shut[m] == q);
            }
            assert(shut.contains(0)) by {
                if s.closed.len() > 0 {
                    let m = choose|m: int| 0 <= m < s.closed.len() && s.closed[m] == 0;
                    assert(shut[m] == 0);
                } else {
                    if s.nodes.len() > 1 {
                        assert(linked(p, s, 1));
                    }
                }
            }
            assert forall|i: int| 0 <= i < base.nodes.len() implies rest.contains(i) || #[trigger] shut.contains(i) by {
                if i != cur {
                    if s.open.contains(i) {
                        let j = choose|j: int| 0 <= j < s.open.len() && s.open[j] == i;
                        if j < k {
                            assert(rest[j] == i);
                        } else {
                            assert(rest[j - 1] == i);
                        }
                    } else {
                        assert(s.closed.contains(i));
                        let m = choose|m: int| 0 <= m < s.closed.len() && s.closed[m] == i;
                        assert(shut[m] == i);
                    }
                }
            }
            assert(names_nodes(shut, s.nodes.len() as int));
            assert(sound(p, base));
            let cands = p.diagonal.neighbours(p.cost, s.nodes[cur].xy);
            lemma_offer_all_sound(p, base, cur, cands);
        }
    }
}

/// Moving the selected entry from the frontier to the expanded nodes keeps
/// the state sound.
pub proof fn lemma_close_sound(p: Problem, s: SearchState)
    requires
        sound(p, s),
        s.outcome is Running,
        s.open.len() > 0,
    ensures
        ({
            let k = selected(s.nodes, s.open);
            let cur = s.open[k];
            let base = SearchState { open: s.open.remove(k), closed: s.closed.push(cur), ..s };
            &&& 0 <= k < s.open.len()
            &&& 0 <= cur < s.nodes.len()
            &&& sound(p, base)
            &&& base.closed.contains(cur)
        }),
{
    lemma_selected_exists(s.nodes, s.open);
    let k = selected(s.nodes, s.open);
    let cur = s.open[k];
    let rest = s.open.remove(k);
    assert(0 <= cur < s.nodes.len());
    assert(forall|j: int| 0 <= j < k ==> rest[j] == s.open[j]);
    assert(forall|j: int| k <= j < rest.len() ==> rest[j] == s.open[j + 1]);
    assert(rest.no_duplicates());
    assert(!rest.contains(cur)) by {
        if rest.contains(cur) {
            let j = choose|j: int| 0 <= j < rest.len() && rest[j] == cur;
            if j < k {
                assert(s.open[j] == s.open[k]);
            } else {
                assert(s.open[j + 1] == s.open[k]);
            }
        }
    }
    assert(!s.closed.contains(cur)) by {
        if s.closed.contains(cur) {
            let m = choose|m: int| 0 <= m < s.closed.len() && s.closed[m] == cur;
            assert(s.open[k] != s.closed[m]);
        }
    }
    assert(names_nodes(rest, s.nodes.len() as int));
    assert(apart(rest, s.closed)) by {
        assert forall|j: int, m: int| 0 <= j < rest.len() && 0 <= m < s.closed.len() implies #[trigger] rest[j]
            != #[trigger] s.closed[m] by {
            if j < k {
                assert(s.open[j] != s.closed[m]);
            } else {
                assert(s.open[j + 1] != s.closed[m]);
            }
        }
    }
    let shut = s.closed.push(cur);
    let base = SearchState { open: rest, closed: shut, ..s };
    assert(shut[s.closed.len() as int] == cur);
    assert(forall|m: int| 0 <= m < s.closed.len() ==> shut[m] == s.closed[m]);
    assert(shut.contains(cur));
    assert(shut.no_duplicates());
    assert(apart(rest, shut)) by {
        assert forall|j: int, m: int| 0 <= j < rest.len() && 0 <= m < shut.len() implies #[trigger] rest[j]
            != #[trigger] shut[m] by {
            if m < s.closed.len() {
                assert(rest[j] != s.closed[m]);
            } else {
                assert(rest.contains(rest[j]));
            }
        }
    }
    assert forall|i: int| 1 <= i < base.nodes.len() implies #[trigger] linked(p, base, i) by {
        assert(linked(p, s, i));
        let q = s.nodes[i].parent->0;
        let m = choose|m: int| 0 <= m < s.closed.len() && s.closed[m] == q;
        assert(shut[m] == q);
    }
    assert(shut.contains(0)) by {
        if s.closed.len() > 0 {
            let m = choose|m: int| 0 <= m < s.closed.len() && s.closed[m] == 0;
            assert(shut[m] == 0);
        } else {
            if s.nodes.len() > 1 {
                assert(linked(p, s, 1));
            }
        }
    }
    assert forall|i: int| 0 <= i < base.nodes.len() implies rest.contains(i) || #[trigger] shut.contains(i) by {
        if i != cur {
            if s.open.contains(i) {
                let j = choose|j: int| 0 <= j < s.open.len() && s.open[j] == i;
                if j < k {
                    assert(rest[j] == i);
                } else {
                    assert(rest[j - 1] == i);
                }
            } else {
                assert(s.closed.contains(i));
                let m = choose|m: int| 0 <= m < s.closed.len() && s.closed[m] == i;
                assert(shut[m] == i);
            }
        }
    }
    assert(names_nodes(shut, s.nodes.len() as int));
    assert(sound(p, base));
}

/// The state before the first step is sound.
pub proof fn lemma_initial_sound(p: Problem)
    ensures
        sound(p, initial(p)),
{
    let s = initial(p);
    assert(s.open[0] == 0);
    assert forall|i: int| 0 <= i < s.nodes.len() implies s.open.contains(i) || #[trigger] s.closed.contains(i) by {
        assert(s.open[0] == i);
    }
}

/// Every state that the search reaches is sound.
pub proof fn lemma_run_sound(p: Problem, n: nat)
    ensures
        sound(p, run(p, n)),
    decreases n,
{
    if n == 0 {
        lemma_initial_sound(p);
    } else {
        lemma_run_sound(p, (n - 1) as nat);
        lemma_step_sound(p, run(p, (n - 1) as nat));
    }
}

/// A cell of the grid as a number: cells of a grid of height `h` get
/// different numbers below `w * h`.
pub open spec fn cell_number(c: Coord, h: int) -> int {
    c.x * h + c.y
}

proof fn lemma_cell_number(c: Coord, d: Coord, w: int, h: int)
    requires
        c.in_bounds(w, h),
        d.in_bounds(w, h),
    ensures
        0 <= cell_number(c, h) < w * h,
        cell_number(c, h) == cell_number(d, h) ==> c == d,
{
    let cx = c.x as int;
    let cy = c.y as int;
    let dx = d.x as int;
    let dy = d.y as int;
    assert(0 <= cx * h + cy < w * h) by (nonlinear_arith)
        requires
            0 <= cx < w,
            0 <= cy < h,
    ;
    if cx * h + cy == dx * h + dy {
        assert(cx == dx) by (nonlinear_arith)
            requires
                cx * h + cy == dx * h + dy,
                0 <= cy < h,
                0 <= dy < h,
        ;
    }
}

/// Distinct numbers below a bound are at most as many as the bound.
pub proof fn lemma_distinct_below(codes: Seq<int>, bound: int)
    requires
        codes.no_duplicates(),
        forall|i: int| 0 <= i < codes.len() ==> 0 <= #[trigger] codes[i] < bound,
    ensures
        codes.len() > 0 ==> codes.len() <= bound,
{
    if codes.len() > 0 {
        assert(0 <= codes[0] < bound);
        codes.unique_seq_to_set();
        vstd::set_lib::lemma_int_range(0, bound);
        assert(codes.to_set().subset_of(vstd::set_lib::set_int_range(0, bound))) by {
            assert forall|v: int| codes.to_set().contains(v) implies vstd::set_lib::set_int_range(
                0,
                bound,
            ).contains(v) by {
                let i = choose|i: int| 0 <= i < codes.len() && codes[i] == v;
                assert(0 <= codes[i] < bound);
            }
        }
        vstd::set_lib::lemma_len_subset(codes.to_set(), vstd::set_lib::set_int_range(0, bound));
    }
}

/// Every node of a sound state sits inside the grid, if the start does.
pub proof fn lemma_nodes_in_grid(p: Problem, s: SearchState, i: int)
    requires
        sound(p, s),
        p.start.in_bounds(p.width, p.height),
        0 <= i < s.nodes.len(),
    ensures
        s.nodes[i].xy.in_bounds(p.width, p.height),
{
    if i > 0 {
        assert(linked(p, s, i));
    }
}

/// The arena never holds more nodes than the grid has cells.
pub proof fn lemma_arena_fits_grid(p: Problem, s: SearchState)
    requires
        sound(p, s),
        p.start.in_bounds(p.width, p.height),
    ensures
        s.nodes.len() <= p.width * p.height,
{
    let codes = Seq::new(s.nodes.len(), |i: int| cell_number(s.nodes[i].xy, p.height));
    assert forall|i: int| 0 <= i < codes.len() implies 0 <= #[trigger] codes[i] < p.width
        * p.height by {
        lemma_nodes_in_grid(p, s, i);
        lemma_cell_number(s.nodes[i].xy, s.nodes[i].xy, p.width, p.height);
    }
    assert forall|i: int, j: int| 0 <= i < codes.len() && 0 <= j < codes.len() && i != j implies codes[i]
        != codes[j] by {
        lemma_nodes_in_grid(p, s, i);
        lemma_nodes_in_grid(p, s, j);
        lemma_cell_number(s.nodes[i].xy, s.nodes[j].xy, p.width, p.height);
        if i < j {
            assert(s.nodes[i].xy != s.nodes[j].xy);
        } else {
            assert(s.nodes[j].xy != s.nodes[i].xy);
        }
    }
    lemma_distinct_below(codes, p.width * p.height);
}

} // verus!
