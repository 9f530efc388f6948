//! Connected components.
use vstd::prelude::*;
use crate::algo::transform::{transposed, undirected, Transform};
use crate::algo::utils::color::ColorCycle;
use crate::graph::renderer::LayoutEngine;
use crate::graph::{has_link, lemma_distinct_within, Adjacency, Graph};

verus! {

/// The nodes of the components `comps`, one component after the other.
pub open spec fn flat(comps: Seq<Seq<char>>) -> Seq<char>
    decreases comps.len(),
{
    if comps.len() == 0 {
        Seq::empty()
    } else {
        flat(comps.drop_last()) + comps.last()
    }
}

/// The components `v`, each as a sequence of nodes.
pub open spec fn comps_view(v: Seq<Vec<char>>) -> Seq<Seq<char>> {
    v.map_values(|c: Vec<char>| c@)
}

/// Whether every link from a node of `bt` leads to a node of `bt`, `vis` or `already`.
pub open spec fn dfs_closed(adj: Adjacency, bt: Seq<char>, vis: Seq<char>, already: Seq<char>) -> bool {
    forall|x: char, y: char| #![trigger bt.contains(x), has_link(adj, x, y)]
        bt.contains(x) && has_link(adj, x, y) ==> bt.contains(y) || vis.contains(y) || already.contains(y)
}

/// Whether each link from a node of a component leads to a node of that component or of an
/// earlier one.
pub open spec fn closed_up_to_earlier(adj: Adjacency, comps: Seq<Seq<char>>) -> bool {
    forall|i: int, x: char, y: char| #![trigger comps[i].contains(x), has_link(adj, x, y)]
        0 <= i < comps.len() && comps[i].contains(x) && has_link(adj, x, y) ==> comps[i].contains(y)
            || flat(comps.take(i)).contains(y)
}

/// Whether each link from a node of a component leads to a node of that component.
pub open spec fn components_closed(adj: Adjacency, comps: Seq<Seq<char>>) -> bool {
    forall|i: int, x: char, y: char| #![trigger comps[i].contains(x), has_link(adj, x, y)]
        0 <= i < comps.len() && comps[i].contains(x) && has_link(adj, x, y) ==> comps[i].contains(y)
}

/// Whether the components `comps` share out the nodes of `adj`: each node is in exactly one
/// of them, and they hold nothing else.
pub open spec fn shares_out(adj: Adjacency, comps: Seq<Seq<char>>) -> bool {
    &&& flat(comps).no_duplicates()
    &&& forall|x: char| #[trigger] adj.contains_key(x) <==> flat(comps).contains(x)
}

/// Whether `v` holds `x`.
fn holds(v: &Vec<char>, x: char) -> (b: bool)
    ensures
        b == v@.contains(x),
{
    let mut i: usize = 0;
    while i < v.len()
        invariant
            i <= v@.len(),
            forall|j: int| 0 <= j < i ==> v@[j] != x,
        decreases v@.len() - i,
    {
        if v[i] == x {
            assert(v@[i as int] == x);
            return true;
        }
        i = i + 1;
    }
    false
}

/// The nodes of the components `comps`, one component after the other.
fn flatten(comps: &Vec<Vec<char>>) -> (v: Vec<char>)
    ensures
        v@ == flat(comps_view(comps@)),
{
    let mut v: Vec<char> = Vec::new();
    let mut i: usize = 0;
    while i < comps.len()
        invariant
            i <= comps@.len(),
            v@ == flat(comps_view(comps@).take(i as int)),
        decreases comps@.len() - i,
    {
        let ghost before = v@;
        let mut j: usize = 0;
        while j < comps[i].len()
            invariant
                i < comps@.len(),
                j <= comps@[i as int]@.len(),
                v@ == before + comps@[i as int]@.take(j as int),
            decreases comps@[i as int]@.len() - j,
        {
            v.push(comps[i][j]);
            assert(v@ =~= before + comps@[i as int]@.take(j + 1));
            j = j + 1;
        }
        proof {
            let cv = comps_view(comps@);
            assert(comps@[i as int]@.take(j as int) =~= comps@[i as int]@);
            assert(cv.take(i + 1).drop_last() =~= cv.take(i as int));
            assert(cv.take(i + 1).last() == comps@[i as int]@);
        }
        i = i + 1;
    }
    assert(comps_view(comps@).take(i as int) =~= comps_view(comps@));
    v
}

/// The flat sequence of a prefix of components, then one more.
pub(crate) proof fn lemma_flat_push(comps: Seq<Seq<char>>, c: Seq<char>)
    ensures
        flat(comps.push(c)) == flat(comps) + c,
{
    assert(comps.push(c).drop_last() =~= comps);
}

/// A node is in the flat sequence when it is in one of the components.
pub(crate) proof fn lemma_flat_contains(comps: Seq<Seq<char>>, i: int, x: char)
    requires
        0 <= i < comps.len(),
        comps[i].contains(x),
    ensures
        flat(comps).contains(x),
    decreases comps.len(),
{
    if i == comps.len() - 1 {
        let k = comps[i].index_of(x);
        assert(flat(comps)[flat(comps.drop_last()).len() + k] == x);
    } else {
        lemma_flat_contains(comps.drop_last(), i, x);
        let k = flat(comps.drop_last()).index_of(x);
        assert(flat(comps)[k] == x);
    }
}

/// A node of the flat sequence is in one of the components.
pub(crate) proof fn lemma_flat_member(comps: Seq<Seq<char>>, x: char) -> (i: int)
    requires
        flat(comps).contains(x),
    ensures
        0 <= i < comps.len(),
        comps[i].contains(x),
    decreases comps.len(),
{
    let f = flat(comps.drop_last());
    let k = flat(comps).index_of(x);
    if k < f.len() {
        assert(f[k] == x);
        lemma_flat_member(comps.drop_last(), x)
    } else {
        assert(comps.last()[k - f.len()] == x);
        comps.len() - 1
    }
}

/// Whether the node at position `q` of `bt` reaches every node of `bt` from position `p` to
/// before `q`.
pub open spec fn reaches_back(adj: Adjacency, bt: Seq<char>, p: int, q: int) -> bool {
    forall|m: int| p <= m < q ==> #[trigger] reachable(adj, bt[q], bt[m])
}

/// Whether each link from a node of `bt` (from position `from` on) leads to a node before it,
/// to a node of `already` or of `stack`, or to a node later in `bt` that reaches every node
/// from it on to before itself: what a depth-first search leaves, `bt` being the order in
/// which it backtracked.
pub open spec fn finish_closed(adj: Adjacency, bt: Seq<char>, from: int, already: Seq<char>, stack: Seq<char>) -> bool {
    forall|p: int, w: char| from <= p < bt.len() && #[trigger] has_link(adj, bt[p], w)
        ==> bt.take(p).contains(w) || already.contains(w) || stack.contains(w)
            || exists|q: int| p < q < bt.len() && bt[q] == w && reaches_back(adj, bt, p, q)
}

/// The order of a search that went on: what held of the first part still holds.
proof fn lemma_finish_extend(adj: Adjacency, b1: Seq<char>, b2: Seq<char>, from: int, already: Seq<char>, stack: Seq<char>)
    requires
        0 <= from,
        finish_closed(adj, b1, from, already, stack),
        finish_closed(adj, b2, b1.len() as int, already, stack),
        b1.len() <= b2.len(),
        b2.take(b1.len() as int) == b1,
    ensures
        finish_closed(adj, b2, from, already, stack),
{
    assert forall|p: int, w: char| from <= p < b2.len() && #[trigger] has_link(adj, b2[p], w)
        implies b2.take(p).contains(w) || already.contains(w) || stack.contains(w)
            || exists|q: int| p < q < b2.len() && b2[q] == w && reaches_back(adj, b2, p, q) by {
        if p < b1.len() {
            assert(b2[p] == b1[p]) by {
                assert(b2.take(b1.len() as int)[p] == b2[p]);
            }
            assert(has_link(adj, b1[p], w));
            if b1.take(p).contains(w) {
                assert(b2.take(p) =~= b1.take(p)) by {
                    assert forall|m: int| 0 <= m < p implies b2[m] == b1[m] by {
                        assert(b2.take(b1.len() as int)[m] == b2[m]);
                    }
                }
            } else if !already.contains(w) && !stack.contains(w) {
                let q = choose|q: int| p < q < b1.len() && b1[q] == w && reaches_back(adj, b1, p, q);
                assert forall|m: int| 0 <= m < b1.len() implies b2[m] == b1[m] by {
                    assert(b2.take(b1.len() as int)[m] == b2[m]);
                }
                assert(b2[q] == w);
                assert forall|m: int| p <= m < q implies #[trigger] reachable(adj, b2[q], b2[m]) by {
                    assert(reachable(adj, b1[q], b1[m]));
                }
                assert(reaches_back(adj, b2, p, q));
            }
        }
    }
}

/// The search backtracks from `start`: each link from a node it backtracked from since it
/// reached `start` and that led to `start` now leads to a node later in the order that reaches
/// every node from it on.
proof fn lemma_finish_push(adj: Adjacency, bt1: Seq<char>, start: char, from: int, already: Seq<char>, vis0: Seq<char>)
    requires
        0 <= from <= bt1.len(),
        finish_closed(adj, bt1, from, already, vis0.push(start)),
        forall|m: int| from <= m < bt1.len() ==> reachable(adj, start, #[trigger] bt1[m]),
        forall|w: char| #[trigger] has_link(adj, start, w) ==> bt1.contains(w) || vis0.contains(w) || already.contains(w),
    ensures
        finish_closed(adj, bt1.push(start), from, already, vis0),
{
    let bt = bt1.push(start);
    let n = bt1.len() as int;
    assert forall|p: int, w: char| from <= p < bt.len() && #[trigger] has_link(adj, bt[p], w)
        implies bt.take(p).contains(w) || already.contains(w) || vis0.contains(w)
            || exists|q: int| p < q < bt.len() && bt[q] == w && reaches_back(adj, bt, p, q) by {
        if p < n {
            assert(bt[p] == bt1[p]);
            assert(has_link(adj, bt1[p], w));
            assert(bt.take(p) =~= bt1.take(p));
            if !bt1.take(p).contains(w) && !already.contains(w) && !vis0.contains(w) {
                if w == start {
                    assert(bt[n] == w);
                    assert forall|m: int| p <= m < n implies #[trigger] reachable(adj, bt[n], bt[m]) by {
                        assert(bt[m] == bt1[m]);
                        assert(reachable(adj, start, bt1[m]));
                    }
                    assert(reaches_back(adj, bt, p, n));
                } else {
                    assert(!vis0.push(start).contains(w)) by {
                        if vis0.push(start).contains(w) {
                            let i = vis0.push(start).index_of(w);
                            if i < vis0.len() {
                                assert(vis0[i] == w);
                            }
                        }
                    }
                    let q = choose|q: int| p < q < bt1.len() && bt1[q] == w && reaches_back(adj, bt1, p, q);
                    assert(bt[q] == w);
                    assert forall|m: int| p <= m < q implies #[trigger] reachable(adj, bt[q], bt[m]) by {
                        assert(reachable(adj, bt1[q], bt1[m]));
                    }
                    assert(reaches_back(adj, bt, p, q));
                }
            }
        } else {
            assert(bt[p] == start);
            assert(bt.take(p) =~= bt1);
        }
    }
}

/// Searches one after the other: what held of each holds of the whole order.
proof fn lemma_finish_concat(adj: Adjacency, l: Seq<char>, bt: Seq<char>)
    requires
        finish_closed(adj, l, 0, Seq::empty(), Seq::empty()),
        finish_closed(adj, bt, 0, l, Seq::empty()),
    ensures
        finish_closed(adj, l + bt, 0, Seq::empty(), Seq::empty()),
{
    let s = l + bt;
    let n = l.len() as int;
    let e = Seq::<char>::empty();
    assert forall|p: int, w: char| 0 <= p < s.len() && #[trigger] has_link(adj, s[p], w)
        implies s.take(p).contains(w) || e.contains(w) || e.contains(w)
            || exists|q: int| p < q < s.len() && s[q] == w && reaches_back(adj, s, p, q) by {
        if p < n {
            assert(s[p] == l[p]);
            assert(has_link(adj, l[p], w));
            if l.take(p).contains(w) {
                assert(s.take(p) =~= l.take(p));
            } else {
                let q = choose|q: int| p < q < l.len() && l[q] == w && reaches_back(adj, l, p, q);
                assert(s[q] == w);
                assert forall|m: int| p <= m < q implies #[trigger] reachable(adj, s[q], s[m]) by {
                    assert(reachable(adj, l[q], l[m]));
                }
                assert(reaches_back(adj, s, p, q));
            }
        } else {
            let p1 = p - n;
            assert(s[p] == bt[p1]);
            assert(has_link(adj, bt[p1], w));
            if bt.take(p1).contains(w) {
                let i = bt.take(p1).index_of(w);
                assert(s.take(p)[n + i] == w);
            } else if l.contains(w) {
                let i = l.index_of(w);
                assert(s.take(p)[i] == w);
            } else {
                let q1 = choose|q: int| p1 < q < bt.len() && bt[q] == w && reaches_back(adj, bt, p1, q);
                let q = q1 + n;
                assert(s[q] == w);
                assert forall|m: int| p <= m < q implies #[trigger] reachable(adj, s[q], s[m]) by {
                    assert(s[m] == bt[m - n]);
                    assert(reachable(adj, bt[q1], bt[m - n]));
                }
                assert(reaches_back(adj, s, p, q));
            }
        }
    }
}

/// Whether component `i` of `comps` holds a node of `nodes` from which every node of it can
/// be reached, each node listed after that one in `nodes` being in an earlier component.
pub open spec fn rooted_late(adj: Adjacency, comps: Seq<Seq<char>>, nodes: Seq<char>, i: int) -> bool {
    exists|m: int| 0 <= m < nodes.len() && comps[i].contains(nodes[m])
        && (forall|x: char| #[trigger] comps[i].contains(x) ==> reachable(adj, nodes[m], x))
        && (forall|m2: int| m < m2 < nodes.len() ==> #[trigger] flat(comps.take(i)).contains(nodes[m2]))
}

pub struct Connectivity;

impl Connectivity {
    /// Depth-first search from `start` among the nodes neither in `visited`, `backtracked` nor
    /// `already`: each node met is filled in green, then, when the search backtracks from it,
    /// pushed on `backtracked` (filled in white, its label green).
    fn dfs_components_rec<E: LayoutEngine>(
        g: &mut Graph<E>,
        start: char,
        visited: &mut Vec<char>,
        backtracked: &mut Vec<char>,
        already: &Vec<char>,
        Ghost(fuel): Ghost<int>,
    )
        requires
            old(g).wf(),
            !old(g).is_paused(),
            old(g).adj().contains_key(start),
            (old(visited)@ + old(backtracked)@).no_duplicates(),
            forall|x: char| #[trigger] (old(visited)@ + old(backtracked)@).contains(x) ==> old(g).adj().contains_key(x)
                && !already@.contains(x),
            dfs_closed(old(g).adj(), old(backtracked)@, old(visited)@, already@),
            fuel == old(g).adj().dom().len() - old(visited)@.len() - old(backtracked)@.len(),
        ensures
            final(g).wf(),
            !final(g).is_paused(),
            final(g).adj() == old(g).adj(),
            final(g).same_settings(old(g)),
            final(visited)@ == old(visited)@,
            old(backtracked)@.len() <= final(backtracked)@.len(),
            final(backtracked)@.take(old(backtracked)@.len() as int) == old(backtracked)@,
            (final(visited)@ + final(backtracked)@).no_duplicates(),
            forall|x: char| #[trigger] (final(visited)@ + final(backtracked)@).contains(x) ==> final(g).adj().contains_key(x)
                && !already@.contains(x),
            final(visited)@.contains(start) || final(backtracked)@.contains(start) || already@.contains(start),
            dfs_closed(final(g).adj(), final(backtracked)@, final(visited)@, already@),
            forall|j: int| old(backtracked)@.len() <= j < final(backtracked)@.len()
                ==> reachable(old(g).adj(), start, #[trigger] final(backtracked)@[j]),
            finish_closed(old(g).adj(), final(backtracked)@, old(backtracked)@.len() as int, already@, old(visited)@),
        decreases fuel,
    {
        if holds(backtracked, start) || holds(visited, start) || holds(already, start) {
            return;
        }
        let ghost adj = g.adj();
        let ghost vis0 = visited@;
        let ghost bt0 = backtracked@;
        proof {
            g.lemma_nodes_finite();
            g.lemma_adjacency();
        }
        let ghost ns = g.node_seq();
        let prec_start: Option<char> = match visited.last() {
            Some(n) => Some(*n),
            None => None,
        };
        visited.push(start);
        proof {
            assert((visited@ + backtracked@) =~= (vis0 + bt0).insert(vis0.len() as int, start));
            assert forall|i: int, j: int| 0 <= i < j < (visited@ + backtracked@).len() implies (visited@ + backtracked@)[i]
                != (visited@ + backtracked@)[j] by {
                let s = visited@ + backtracked@;
                let s0 = vis0 + bt0;
                if i == vis0.len() {
                    assert(s0[j - 1] == s[j]);
                    assert(s0.contains(s[j]));
                } else if j == vis0.len() {
                    assert(s0[i] == s[i]);
                    assert(s0.contains(s[i]));
                } else {
                    let i0 = if i < vis0.len() { i } else { i - 1 };
                    let j0 = if j < vis0.len() { j } else { j - 1 };
                    assert(s0[i0] == s[i]);
                    assert(s0[j0] == s[j]);
                }
            }
            assert forall|x: char| #[trigger] (visited@ + backtracked@).contains(x) implies adj.contains_key(x) && !already@.contains(x) by {
                let s = visited@ + backtracked@;
                let s0 = vis0 + bt0;
                let q = s.index_of(x);
                if q < vis0.len() {
                    assert(s0[q] == x);
                    assert(s0.contains(x));
                } else if q > vis0.len() {
                    assert(s0[q - 1] == x);
                    assert(s0.contains(x));
                }
            }
        }
        proof {
            assert forall|x: char, y: char| #![trigger backtracked@.contains(x), has_link(adj, x, y)]
                backtracked@.contains(x) && has_link(adj, x, y) implies backtracked@.contains(y)
                || visited@.contains(y) || already@.contains(y) by {
                if vis0.contains(y) {
                    let q = vis0.index_of(y);
                    assert(visited@[q] == y);
                }
            }
        }
        g.fill_node(start, (0, 196, 0));
        let neighbors = g.neighbors(start);
        let mut k: usize = 0;
        while k < neighbors.len()
            invariant
                g.wf(),
                !g.is_paused(),
                g.adj() == adj,
                g.same_settings(old(g)),
                adj.dom().finite(),
                adj.dom().len() == ns.len(),
                forall|x: char| #[trigger] adj.contains_key(x) <==> ns.contains(x),
                crate::graph::adjacency_wf(adj),
                adj.contains_key(start),
                visited@ == vis0.push(start),
                bt0.len() <= backtracked@.len(),
                backtracked@.take(bt0.len() as int) == bt0,
                (visited@ + backtracked@).no_duplicates(),
                forall|x: char| #[trigger] (visited@ + backtracked@).contains(x) ==> adj.contains_key(x) && !already@.contains(x),
                dfs_closed(adj, backtracked@, visited@, already@),
                fuel == adj.dom().len() - vis0.len() - bt0.len(),
                vis0.len() > 0 ==> prec_start == Some(vis0.last()),
                vis0.len() == 0 ==> prec_start is None,
                forall|y: char| #[trigger] adj[start].contains_key(y) <==> neighbors@.contains(y),
                k <= neighbors@.len(),
                forall|j: int| 0 <= j < k ==> prec_start == Some(#[trigger] neighbors@[j]) || visited@.contains(neighbors@[j])
                    || backtracked@.contains(neighbors@[j]) || already@.contains(neighbors@[j]),
                forall|j: int| bt0.len() <= j < backtracked@.len() ==> reachable(adj, start, #[trigger] backtracked@[j]),
                finish_closed(adj, backtracked@, bt0.len() as int, already@, vis0.push(start)),
            decreases neighbors@.len() - k,
        {
            let neighbor = neighbors[k];
            assert(neighbors@.contains(neighbor));
            assert(adj[start].contains_key(neighbor));
            let is_prec = match prec_start {
                Some(p) => p == neighbor,
                None => false,
            };
            if !is_prec {
                let ghost bt_before = backtracked@;
                proof {
                    let s = visited@ + backtracked@;
                    assert forall|i: int| 0 <= i < s.len() implies ns.contains(#[trigger] s[i]) by {
                        assert(s.contains(s[i]));
                    }
                    lemma_distinct_within(s, ns);
                }
                Self::dfs_components_rec(
                    g,
                    neighbor,
                    visited,
                    backtracked,
                    already,
                    Ghost(adj.dom().len() - visited@.len() - backtracked@.len()),
                );
                proof {
                    {
                        lemma_finish_extend(adj, bt_before, backtracked@, bt0.len() as int, already@, vis0.push(start));
                    }
                    assert forall|j: int| bt0.len() <= j < backtracked@.len() implies reachable(adj, start, #[trigger] backtracked@[j]) by {
                        if j < bt_before.len() {
                            assert(backtracked@.take(bt_before.len() as int)[j] == bt_before[j]);
                        } else {
                            assert(has_link(adj, start, neighbor));
                            lemma_reach_prepend(adj, start, neighbor, backtracked@[j]);
                        }
                    }
                    assert(backtracked@.take(bt0.len() as int) =~= bt_before.take(bt0.len() as int));
                    assert forall|j: int| 0 <= j < k + 1 implies prec_start == Some(#[trigger] neighbors@[j])
                        || visited@.contains(neighbors@[j]) || backtracked@.contains(neighbors@[j]) || already@.contains(neighbors@[j]) by {
                        if j < k && bt_before.contains(neighbors@[j]) {
                            let q = bt_before.index_of(neighbors@[j]);
                            assert(backtracked@.take(bt_before.len() as int)[q] == neighbors@[j]);
                            assert(backtracked@[q] == neighbors@[j]);
                        }
                    }
                }
            }
            k = k + 1;
        }
        let ghost bt1 = backtracked@;
        proof {
            {
                assert forall|w: char| #[trigger] has_link(adj, start, w) implies bt1.contains(w) || vis0.contains(w) || already@.contains(w) by {
                    assert(adj[start].contains_key(w));
                    assert(neighbors@.contains(w));
                    let j = neighbors@.index_of(w);
                    assert(neighbors@[j] == w);
                    if prec_start == Some(w) {
                        if vis0.len() > 0 {
                            assert(vis0[vis0.len() - 1] == w);
                        }
                    } else if vis0.push(start).contains(w) {
                        assert(w != start);
                        let q = vis0.push(start).index_of(w);
                        assert(vis0[q] == w);
                    }
                }
            }
        }
        let last = visited.pop();
        backtracked.push(start);
        proof {
            {
                lemma_finish_push(adj, bt1, start, bt0.len() as int, already@, vis0);
                assert(backtracked@ == bt1.push(start));
            }
            assert(backtracked@[backtracked@.len() - 1] == start);
            assert(backtracked@.contains(start));
            assert forall|j: int| bt0.len() <= j < backtracked@.len() implies reachable(adj, start, #[trigger] backtracked@[j]) by {
                if j < bt1.len() {
                    assert(backtracked@[j] == bt1[j]);
                } else {
                    lemma_reach_self(adj, start);
                }
            }
            assert(visited@ =~= vis0);
            assert(backtracked@.take(bt0.len() as int) =~= bt1.take(bt0.len() as int));
            let s = visited@ + backtracked@;
            let s1 = vis0.push(start) + bt1;
            assert(s =~= s1.remove(vis0.len() as int).push(start));
            assert forall|x: char| #[trigger] s.contains(x) implies s1.contains(x) by {
                let q = s.index_of(x);
                if q < vis0.len() {
                    assert(s1[q] == x);
                } else if q < s.len() - 1 {
                    assert(s1[q + 1] == x);
                } else {
                    assert(s1[vis0.len() as int] == x);
                }
            }
            assert forall|i: int, j: int| 0 <= i < j < s.len() implies s[i] != s[j] by {
                let m = vis0.len() as int;
                let i1 = if i < m { i } else if i < s.len() - 1 { i + 1 } else { m };
                let j1 = if j < m { j } else if j < s.len() - 1 { j + 1 } else { m };
                assert(s1[i1] == s[i]);
                assert(s1[j1] == s[j]);
            }
            assert forall|x: char, y: char| #![trigger backtracked@.contains(x), has_link(adj, x, y)]
                backtracked@.contains(x) && has_link(adj, x, y) implies backtracked@.contains(y) || visited@.contains(y)
                || already@.contains(y) by {
                let q = backtracked@.index_of(x);
                if x == start {
                    assert(neighbors@.contains(y));
                    let j = neighbors@.index_of(y);
                    assert(neighbors@[j] == y);
                    if prec_start == Some(y) {
                        if vis0.len() > 0 {
                            assert(vis0[vis0.len() - 1] == y);
                        } else {
                            assert(adj.contains_key(y));
                        }
                    } else if vis0.push(start).contains(y) {
                        assert(y != start);
                        let q2 = vis0.push(start).index_of(y);
                        assert(vis0[q2] == y);
                    } else if bt1.contains(y) {
                        let q2 = bt1.index_of(y);
                        assert(backtracked@[q2] == y);
                    }
                } else {
                    assert(bt1[q] == x);
                    assert(bt1.contains(x));
                    if vis0.push(start).contains(y) {
                        let q2 = vis0.push(start).index_of(y);
                        if q2 < vis0.len() {
                            assert(vis0[q2] == y);
                        } else {
                            assert(backtracked@[bt1.len() as int] == y);
                        }
                    } else if bt1.contains(y) {
                        let q2 = bt1.index_of(y);
                        assert(backtracked@[q2] == y);
                    }
                }
            }
        }
        proof {
            g.lemma_running();
        }
        g.pause();
        g.fill_node(start, (255, 255, 255));
        g.color_label(start, (0, 196, 0));
        g.resume();
    }

    /// Depth-first searches from the nodes of `nodes`, the last one first: each search that
    /// starts from a node outside the components found so far gives a new component (its
    /// nodes in the order in which the search backtracked from them), stroked in the next
    /// color.
    fn dfs_components<E: LayoutEngine>(cg: Graph<E>, nodes: Vec<char>) -> (r: (Graph<E>, Vec<Vec<char>>))
        requires
            cg.wf(),
            !cg.is_paused(),
            forall|i: int| 0 <= i < nodes@.len() ==> cg.adj().contains_key(#[trigger] nodes@[i]),
        ensures
            r.0.wf(),
            !r.0.is_paused(),
            r.0.adj() == cg.adj(),
            r.0.same_settings(&cg),
            flat(comps_view(r.1@)).no_duplicates(),
            forall|x: char| #[trigger] flat(comps_view(r.1@)).contains(x) ==> cg.adj().contains_key(x),
            forall|i: int| 0 <= i < nodes@.len() ==> flat(comps_view(r.1@)).contains(#[trigger] nodes@[i]),
            closed_up_to_earlier(cg.adj(), comps_view(r.1@)),
            forall|i: int| 0 <= i < r.1@.len() ==> (#[trigger] r.1@[i])@.len() > 0,
            forall|i: int| 0 <= i < r.1@.len() ==> rooted(cg.adj(), (#[trigger] r.1@[i])@),
            finish_closed(cg.adj(), flat(comps_view(r.1@)), 0, Seq::empty(), Seq::empty()),
            forall|i: int| 0 <= i < r.1@.len() ==> #[trigger] rooted_late(cg.adj(), comps_view(r.1@), nodes@, i),
    {
        let ghost adj = cg.adj();
        let ghost g0 = cg;
        let ghost nodes0 = nodes@;
        let mut cg = cg;
        let mut nodes = nodes;
        let mut components: Vec<Vec<char>> = Vec::new();
        let mut colors = ColorCycle::new();
        proof {
            assert(comps_view(components@) =~= Seq::<Seq<char>>::empty());
            assert(flat(comps_view(components@)) =~= Seq::<char>::empty());
        }
        while nodes.len() > 0
            invariant
                cg.wf(),
                !cg.is_paused(),
                cg.adj() == adj,
                cg.same_settings(&g0),
                colors.wf(),
                nodes0.len() >= nodes@.len(),
                nodes@ == nodes0.take(nodes@.len() as int),
                forall|i: int| 0 <= i < nodes0.len() ==> adj.contains_key(#[trigger] nodes0[i]),
                forall|i: int| nodes@.len() <= i < nodes0.len() ==> flat(comps_view(components@)).contains(#[trigger] nodes0[i]),
                flat(comps_view(components@)).no_duplicates(),
                forall|x: char| #[trigger] flat(comps_view(components@)).contains(x) ==> adj.contains_key(x),
                closed_up_to_earlier(adj, comps_view(components@)),
                forall|i: int| 0 <= i < components@.len() ==> (#[trigger] components@[i])@.len() > 0,
                forall|i: int| 0 <= i < components@.len() ==> rooted(adj, (#[trigger] components@[i])@),
                finish_closed(adj, flat(comps_view(components@)), 0, Seq::empty(), Seq::empty()),
                forall|i: int| 0 <= i < components@.len() ==> #[trigger] rooted_late(adj, comps_view(components@), nodes0, i),
            decreases nodes@.len(),
        {
            let start = nodes.pop().unwrap();
            proof {
                assert(nodes@ =~= nodes0.take(nodes@.len() as int));
                assert(start == nodes0[nodes@.len() as int]);
            }
            let already = flatten(&components);
            if !holds(&already, start) {
                let mut visited: Vec<char> = Vec::new();
                let mut backtracked: Vec<char> = Vec::new();
                proof {
                    assert(visited@ + backtracked@ =~= Seq::<char>::empty());
                }
                Self::dfs_components_rec(&mut cg, start, &mut visited, &mut backtracked, &already, Ghost(adj.dom().len() - 0 - 0));
                let color = colors.next_color();
                proof {
                    cg.lemma_running();
                    assert(visited@ + backtracked@ =~= backtracked@);
                }
                cg.pause();
                let mut j: usize = 0;
                while j < backtracked.len()
                    invariant
                        cg.wf(),
                        cg.is_paused(),
                        !cg.layout_pending(),
                        cg.adj() == adj,
                        cg.same_settings(&g0),
                        forall|x: char| #[trigger] backtracked@.contains(x) ==> adj.contains_key(x),
                        j <= backtracked@.len(),
                    decreases backtracked@.len() - j,
                {
                    assert(backtracked@.contains(backtracked@[j as int]));
                    cg.color_node(backtracked[j], color);
                    j = j + 1;
                }
                cg.resume();
                let ghost before = comps_view(components@);
                let ghost bt = backtracked@;
                assert(bt.contains(start));
                let ghost raw_before = components@;
                components.push(backtracked);
                proof {
                    assert forall|i: int| 0 <= i < components@.len() implies (#[trigger] components@[i])@.len() > 0
                        && rooted(adj, components@[i]@) by {
                        if i < raw_before.len() {
                            assert(components@[i] == raw_before[i]);
                        } else {
                            assert(components@[i]@ == bt);
                            assert forall|x: char| #[trigger] bt.contains(x) implies reachable(adj, start, x) by {
                                let q = bt.index_of(x);
                                assert(bt[q] == x);
                            }
                        }
                    }
                }
                proof {
                    let after = comps_view(components@);
                    assert(after =~= before.push(bt));
                    lemma_flat_push(before, bt);
                    assert(flat(after) == flat(before) + bt);
                    {
                        lemma_finish_concat(adj, flat(before), bt);
                    }
                    let m0 = nodes@.len() as int;
                    assert forall|i: int| 0 <= i < after.len() implies #[trigger] rooted_late(adj, after, nodes0, i) by {
                        assert(after.take(i) =~= before.take(i) || i == before.len());
                        if i < before.len() {
                            assert(after[i] == before[i]);
                            assert(after.take(i) =~= before.take(i));
                            assert(rooted_late(adj, before, nodes0, i));
                            let m = choose|m: int| 0 <= m < nodes0.len() && before[i].contains(nodes0[m])
                                && (forall|x: char| #[trigger] before[i].contains(x) ==> reachable(adj, nodes0[m], x))
                                && (forall|m2: int| m < m2 < nodes0.len() ==> #[trigger] flat(before.take(i)).contains(nodes0[m2]));
                            assert(after[i].contains(nodes0[m]));
                        } else {
                            assert(after.take(i) =~= before);
                            assert(after[i] == bt);
                            assert(nodes0[m0] == start);
                            assert forall|x: char| #[trigger] after[i].contains(x) implies reachable(adj, nodes0[m0], x) by {
                                let q = bt.index_of(x);
                                assert(bt[q] == x);
                            }
                            assert forall|m2: int| m0 < m2 < nodes0.len() implies #[trigger] flat(after.take(i)).contains(nodes0[m2]) by {
                                assert(flat(before).contains(nodes0[m2]));
                            }
                        }
                    }
                    assert forall|i: int, j: int| 0 <= i < j < flat(after).len() implies flat(after)[i] != flat(after)[j] by {
                        let f = flat(before);
                        if j >= f.len() && i < f.len() {
                            assert(bt[j - f.len()] == flat(after)[j]);
                            assert(f[i] == flat(after)[i]);
                            assert(f.contains(f[i]));
                            assert(bt.contains(bt[j - f.len()]));
                        } else if i >= f.len() {
                            assert(bt[i - f.len()] == flat(after)[i]);
                            assert(bt[j - f.len()] == flat(after)[j]);
                        } else {
                            assert(f[i] == flat(after)[i]);
                            assert(f[j] == flat(after)[j]);
                        }
                    }
                    assert forall|x: char| #[trigger] flat(after).contains(x) implies adj.contains_key(x) by {
                        let q = flat(after).index_of(x);
                        if q < flat(before).len() {
                            assert(flat(before)[q] == x);
                            assert(flat(before).contains(x));
                        } else {
                            assert(bt[q - flat(before).len()] == x);
                            assert(bt.contains(x));
                            assert(backtracked@.contains(x));
                        }
                    }
                    assert forall|i: int| nodes@.len() <= i < nodes0.len() implies flat(after).contains(#[trigger] nodes0[i]) by {
                        if i == nodes@.len() {
                            assert(bt.contains(start));
                            let q = bt.index_of(start);
                            assert(flat(after)[flat(before).len() + q] == start);
                        } else {
                            let q = flat(before).index_of(nodes0[i]);
                            assert(flat(after)[q] == nodes0[i]);
                        }
                    }
                    assert forall|i: int, x: char, y: char| #![trigger after[i].contains(x), has_link(adj, x, y)]
                        0 <= i < after.len() && after[i].contains(x) && has_link(adj, x, y)
                        implies after[i].contains(y) || flat(after.take(i)).contains(y) by {
                        if i < before.len() {
                            assert(after[i] == before[i]);
                            assert(after.take(i) =~= before.take(i));
                        } else {
                            assert(after.take(i) =~= before);
                        }
                    }
                }
            } else {
                proof {
                    assert forall|i: int| nodes@.len() <= i < nodes0.len() implies flat(comps_view(components@)).contains(#[trigger] nodes0[i]) by {
                    }
                }
            }
        }
        (cg, components)
    }

    /// Returns the connected components of the graph: a copy of the graph (with every link
    /// that goes one way made to go both ways), where the nodes of each component are stroked
    /// in a color of their own, and the components, as lists of nodes.
    pub fn components<E: LayoutEngine>(g: &Graph<E>) -> (r: (Graph<E>, Vec<Vec<char>>))
        requires
            g.wf(),
            g.describable(),
        ensures
            r.0.wf(),
            !r.0.is_paused(),
            r.0.adj() == undirected(g.adj()),
            shares_out(g.adj(), comps_view(r.1@)),
            components_closed(undirected(g.adj()), comps_view(r.1@)),
            forall|i: int| 0 <= i < r.1@.len() ==> (#[trigger] r.1@[i])@.len() > 0,
            forall|i: int, x: char, y: char| 0 <= i < r.1@.len() && (#[trigger] r.1@[i])@.contains(x) && r.1@[i]@.contains(y)
                ==> #[trigger] reachable(undirected(g.adj()), x, y),
    {
        let cg = undirected_copy(g);
        let ghost adj = cg.adj();
        proof {
            g.lemma_adjacency();
        }
        let nodes = cg.nodes();
        let r = Self::dfs_components(cg, nodes);
        proof {
            let comps = comps_view(r.1@);
            assert forall|x: char| #[trigger] g.adj().contains_key(x) <==> flat(comps).contains(x) by {
                if g.adj().contains_key(x) {
                    assert(adj.contains_key(x));
                    assert(nodes@.contains(x));
                    let q = nodes@.index_of(x);
                    assert(flat(comps).contains(nodes@[q]));
                }
            }
            {
                lemma_closed(adj, comps);
            }
            assert forall|i: int, x: char, y: char| 0 <= i < r.1@.len() && (#[trigger] r.1@[i])@.contains(x) && r.1@[i]@.contains(y)
                implies #[trigger] reachable(adj, x, y) by {
                let c = r.1@[i]@;
                assert(rooted(adj, c));
                let root = choose|root: char| c.contains(root) && forall|z: char| #[trigger] c.contains(z) ==> reachable(adj, root, z);
                assert(reachable(adj, root, x));
                assert(reachable(adj, root, y));
                lemma_reach_back(adj, root, x);
                lemma_reach_trans(adj, x, root, y);
            }
        }
        r
    }
}

impl Connectivity {
    /// Returns the strongly connected components of the graph (Kosaraju): a first
    /// depth-first search orders the nodes, the one-way links are turned the other way, and a
    /// second search in that order gives the components; the links are then turned back.
    pub fn strongly_connected_components<E: LayoutEngine>(g: &Graph<E>) -> (r: (Graph<E>, Vec<Vec<char>>))
        requires
            g.wf(),
            g.describable(),
        ensures
            r.0.wf(),
            !r.0.is_paused(),
            r.0.adj() == g.adj(),
            shares_out(g.adj(), comps_view(r.1@)),
            closed_up_to_earlier(transposed(g.adj()), comps_view(r.1@)),
            forall|i: int, x: char, y: char|
                0 <= i < r.1@.len() && (#[trigger] r.1@[i])@.contains(x) && r.1@[i]@.contains(y)
                ==> #[trigger] reachable(g.adj(), x, y),
            forall|i: int, j: int, x: char, y: char|
                0 <= i < r.1@.len() && 0 <= j < r.1@.len() && #[trigger] r.1@[i]@.contains(x) && #[trigger] r.1@[j]@.contains(y)
                && reachable(g.adj(), x, y) && reachable(g.adj(), y, x) ==> i == j,
    {
        let cg = g.copied();
        let nodes = cg.nodes();
        let (mut cg, backtracked) = Self::dfs_components(cg, nodes);
        let order = flatten(&backtracked);
        proof {
            cg.lemma_running();
        }
        cg.pause();
        Transform::transpose(&mut cg);
        proof {
            g.lemma_adjacency();
            lemma_transposed_dom(g.adj());
            assert(cg.picture().node_map()@.dom() =~= cg.adj().dom());
        }
        cg.resume();
        proof {
            cg.lemma_running();
        }
        cg.pause();
        let color = crate::algo::utils::color::Color::default();
        let all = cg.nodes();
        let mut i: usize = 0;
        while i < all.len()
            invariant
                cg.wf(),
                cg.is_paused(),
                !cg.layout_pending(),
                cg.adj() == transposed(g.adj()),
                forall|k: char| #[trigger] cg.adj().contains_key(k) <==> all@.contains(k),
                i <= all@.len(),
            decreases all@.len() - i,
        {
            assert(all@.contains(all@[i as int]));
            cg.color_node(all[i], color);
            i = i + 1;
        }
        cg.resume();
        proof {
            assert forall|j: int| 0 <= j < order@.len() implies cg.adj().contains_key(#[trigger] order@[j]) by {
                assert(order@.contains(order@[j]));
            }
        }
        let (mut cg, components) = Self::dfs_components(cg, order);
        proof {
            cg.lemma_running();
        }
        cg.pause();
        Transform::transpose(&mut cg);
        proof {
            law_transpose_twice(g.adj());
            lemma_transposed_dom(transposed(g.adj()));
            assert(cg.picture().node_map()@.dom() =~= cg.adj().dom());
        }
        cg.resume();
        proof {
            let comps = comps_view(components@);
            assert forall|x: char| #[trigger] g.adj().contains_key(x) <==> flat(comps).contains(x) by {
                if g.adj().contains_key(x) {
                    assert(nodes@.contains(x));
                    let q = nodes@.index_of(x);
                    assert(flat(comps_view(backtracked@)).contains(nodes@[q]));
                    let p = order@.index_of(x);
                    assert(flat(comps).contains(order@[p]));
                }
                if flat(comps).contains(x) {
                    assert(transposed(g.adj()).contains_key(x));
                }
            }
            {
                lemma_strong_components(g.adj(), order@, comps);
                assert forall|i: int, x: char, y: char| 0 <= i < components@.len() && (#[trigger] components@[i])@.contains(x)
                    && components@[i]@.contains(y) implies #[trigger] reachable(g.adj(), x, y) by {
                    assert(comps[i] == components@[i]@);
                }
                assert forall|i: int, j: int, x: char, y: char|
                    0 <= i < components@.len() && 0 <= j < components@.len() && #[trigger] components@[i]@.contains(x)
                    && #[trigger] components@[j]@.contains(y) && reachable(g.adj(), x, y) && reachable(g.adj(), y, x)
                    implies i == j by {
                    assert(comps[i] == components@[i]@ && comps[j] == components@[j]@);
                    lemma_mutual_same(g.adj(), comps, i, j, x, y);
                    lemma_mutual_same(g.adj(), comps, j, i, y, x);
                }
            }
        }
        (cg, components)
    }
}

/// The components of the second search of Kosaraju's algorithm, made in the reverse of the
/// order `l` in which the first search backtracked, along the links turned the other way:
/// any two nodes of a component reach each other.
proof fn lemma_strong_components(adj: Adjacency, l: Seq<char>, comps: Seq<Seq<char>>)
    requires
        finish_closed(adj, l, 0, Seq::empty(), Seq::empty()),
        l.no_duplicates(),
        forall|w: char| #[trigger] adj.contains_key(w) <==> l.contains(w),
        crate::graph::adjacency_wf(adj),
        flat(comps).no_duplicates(),
        forall|w: char| #[trigger] flat(comps).contains(w) ==> adj.contains_key(w),
        closed_up_to_earlier(transposed(adj), comps),
        forall|j: int| 0 <= j < comps.len() ==> #[trigger] rooted_late(transposed(adj), comps, l, j),
    ensures
        forall|i: int, x: char, y: char| 0 <= i < comps.len() && (#[trigger] comps[i]).contains(x) && comps[i].contains(y)
            ==> #[trigger] reachable(adj, x, y),
{
    assert forall|i: int, x: char, y: char| 0 <= i < comps.len() && (#[trigger] comps[i]).contains(x) && comps[i].contains(y)
        implies #[trigger] reachable(adj, x, y) by {
        assert(rooted_late(transposed(adj), comps, l, i));
        let m = choose|m: int| 0 <= m < l.len() && comps[i].contains(l[m])
            && (forall|w: char| #[trigger] comps[i].contains(w) ==> reachable(transposed(adj), l[m], w))
            && (forall|m2: int| m < m2 < l.len() ==> #[trigger] flat(comps.take(i)).contains(l[m2]));
        let r = l[m];
        assert forall|w: char| comps[i].contains(w) implies reachable(adj, w, r) && reachable(adj, r, w) by {
            assert(reachable(transposed(adj), r, w));
            lemma_transposed_reach(adj, w, r);
            assert(l.contains(w)) by {
                lemma_flat_contains(comps, i, w);
                assert(adj.contains_key(w));
            }
            if flat(comps.take(i)).contains(w) {
                let j = lemma_flat_member(comps.take(i), w);
                assert(comps.take(i)[j] == comps[j]);
                lemma_one_place(comps, i, j, w);
            }
            lemma_reach_self(adj, w);
            lemma_root_reaches(adj, l, comps, i, m, w, w);
        }
        lemma_reach_trans(adj, x, r, y);
    }
}

/// Turning the one-way links the other way keeps the nodes.
proof fn lemma_transposed_dom(adj: Adjacency)
    ensures
        transposed(adj).dom() == adj.dom(),
{
    assert(transposed(adj).dom() =~= adj.dom());
}

/// Turning the one-way links the other way twice gives the graph back.
pub proof fn law_transpose_twice(adj: Adjacency)
    requires
        crate::graph::adjacency_wf(adj),
    ensures
        transposed(transposed(adj)) == adj,
{
    let t = transposed(adj);
    let tt = transposed(t);
    assert forall|x: char, y: char| #[trigger] has_link(t, x, y) <==> (has_link(adj, x, y) && has_link(adj, y, x)) || (has_link(adj, y, x) && !has_link(adj, x, y)) by {
    }
    assert forall|k: char| #[trigger] tt.contains_key(k) implies tt[k] =~= adj[k] by {
        assert forall|y: char| #[trigger] tt[k].contains_key(y) <==> adj[k].contains_key(y) by {
            assert(has_link(t, k, y) == ((has_link(adj, k, y) && has_link(adj, y, k)) || (has_link(adj, y, k) && !has_link(adj, k, y))));
            assert(has_link(t, y, k) == ((has_link(adj, y, k) && has_link(adj, k, y)) || (has_link(adj, k, y) && !has_link(adj, y, k))));
            if adj[k].contains_key(y) {
                assert(adj.contains_key(y));
            }
        }
        assert forall|y: char| #[trigger] tt[k].contains_key(y) implies tt[k][y] == adj[k][y] by {
            assert(has_link(t, k, y) == ((has_link(adj, k, y) && has_link(adj, y, k)) || (has_link(adj, y, k) && !has_link(adj, k, y))));
            assert(has_link(t, y, k) == ((has_link(adj, y, k) && has_link(adj, k, y)) || (has_link(adj, k, y) && !has_link(adj, y, k))));
        }
    }
    assert(tt =~= adj);
}

/// A copy of `g` (one animation step) in which the links that go one way go both ways.
pub(crate) fn undirected_copy<E: LayoutEngine>(g: &Graph<E>) -> (cg: Graph<E>)
    requires
        g.wf(),
        g.describable(),
    ensures
        cg.wf(),
        !cg.is_paused(),
        cg.adj() == undirected(g.adj()),
        undirected(g.adj()).dom() == g.adj().dom(),
        crate::graph::adjacency_wf(undirected(g.adj())),
        forall|x: char, y: char| #[trigger] has_link(undirected(g.adj()), x, y) ==> has_link(undirected(g.adj()), y, x),
{
    let mut cg = g.copied();
    proof {
        g.lemma_adjacency();
        lemma_undirected_same(g.adj());
    }
    if cg.directed() {
        proof {
            cg.lemma_running();
        }
        cg.pause();
        Transform::undirect(&mut cg);
        proof {
            assert(cg.picture().node_map()@.dom() =~= cg.adj().dom());
        }
        cg.resume();
    }
    proof {
        lemma_undirected_symmetric(g.adj());
        cg.lemma_adjacency();
    }
    cg
}

/// Making the links go both ways changes nothing when they all do.
proof fn lemma_undirected_same(adj: Adjacency)
    requires
        crate::graph::adjacency_wf(adj),
    ensures
        !crate::graph::is_directed(adj) ==> undirected(adj) == adj,
        undirected(adj).dom() == adj.dom(),
{
    assert(undirected(adj).dom() =~= adj.dom());
    if !crate::graph::is_directed(adj) {
        assert forall|k: char| #[trigger] undirected(adj).contains_key(k) implies undirected(adj)[k] =~= adj[k] by {
            assert forall|y: char| #[trigger] undirected(adj)[k].contains_key(y) <==> adj[k].contains_key(y) by {
                if has_link(adj, y, k) {
                    assert(has_link(adj, k, y));
                }
            }
        }
        assert(undirected(adj) =~= adj);
    }
}

/// Every link of the undirected graph goes both ways.
proof fn lemma_undirected_symmetric(adj: Adjacency)
    requires
        crate::graph::adjacency_wf(adj),
    ensures
        forall|x: char, y: char| #[trigger] has_link(undirected(adj), x, y) ==> has_link(undirected(adj), y, x),
{
    assert forall|x: char, y: char| #[trigger] has_link(undirected(adj), x, y) implies has_link(undirected(adj), y, x) by {
        assert(has_link(adj, x, y) || has_link(adj, y, x));
    }
}

/// A node is in one component only.
proof fn lemma_flat_disjoint(comps: Seq<Seq<char>>, i: int, k: int, x: char)
    requires
        flat(comps).no_duplicates(),
        0 <= i < comps.len(),
        0 <= k < comps.len(),
        i != k,
        comps[i].contains(x),
    ensures
        !comps[k].contains(x),
    decreases comps.len(),
{
    let n = comps.len() - 1;
    let f = flat(comps.drop_last());
    assert(flat(comps) == f + comps[n]);
    assert forall|a: int, b: int| 0 <= a < b < f.len() implies f[a] != f[b] by {
        assert(flat(comps)[a] == f[a]);
        assert(flat(comps)[b] == f[b]);
    }
    if i < n && k < n {
        lemma_flat_disjoint(comps.drop_last(), i, k, x);
    } else if comps[k].contains(x) {
        let (other, last) = if i == n { (k, i) } else { (i, k) };
        lemma_flat_contains(comps.drop_last(), other, x);
        let a = f.index_of(x);
        let b = comps[last].index_of(x);
        assert(flat(comps)[a] == x);
        assert(flat(comps)[f.len() + b] == x);
    }
}

/// With links that go both ways, components closed up to the earlier ones are closed.
proof fn lemma_closed(adj: Adjacency, comps: Seq<Seq<char>>)
    requires
        forall|x: char, y: char| #[trigger] has_link(adj, x, y) ==> has_link(adj, y, x),
        closed_up_to_earlier(adj, comps),
        flat(comps).no_duplicates(),
    ensures
        components_closed(adj, comps),
{
    assert forall|i: int, x: char, y: char| #![trigger comps[i].contains(x), has_link(adj, x, y)]
        0 <= i < comps.len() && comps[i].contains(x) && has_link(adj, x, y) implies comps[i].contains(y) by {
        if !comps[i].contains(y) {
            assert(flat(comps.take(i)).contains(y));
            let k = lemma_flat_member(comps.take(i), y);
            assert(comps[k] == comps.take(i)[k]);
            assert(has_link(adj, y, x));
            assert(comps[k].contains(x) || flat(comps.take(k)).contains(x));
            if comps[k].contains(x) {
                lemma_flat_disjoint(comps, i, k, x);
            } else {
                let m = lemma_flat_member(comps.take(k), x);
                assert(comps[m] == comps.take(k)[m]);
                lemma_flat_disjoint(comps, i, m, x);
            }
        }
    }
}


/// Whether consecutive nodes of `p` are linked.
pub open spec fn linked_path(adj: Adjacency, p: Seq<char>) -> bool {
    forall|i: int| 0 <= i < p.len() - 1 ==> #[trigger] has_link(adj, p[i], p[i + 1])
}

/// Whether a path of links goes from `x` to `y`.
pub open spec fn reachable(adj: Adjacency, x: char, y: char) -> bool {
    exists|p: Seq<char>| #[trigger] linked_path(adj, p) && p.len() > 0 && p[0] == x && p.last() == y
}

/// Whether every node can be reached from every other one, along the links.
pub open spec fn strongly_connected(adj: Adjacency) -> bool {
    forall|x: char, y: char| adj.contains_key(x) && adj.contains_key(y) ==> #[trigger] reachable(adj, x, y)
}

/// Whether every node can be reached from every other one, the links taken either way.
pub open spec fn connected(adj: Adjacency) -> bool {
    forall|x: char, y: char| adj.contains_key(x) && adj.contains_key(y) ==> #[trigger] reachable(undirected(adj), x, y)
}

/// Every node reaches itself.
pub proof fn lemma_reach_self(adj: Adjacency, a: char)
    ensures
        reachable(adj, a, a),
{
    let p = seq![a];
    assert(linked_path(adj, p));
}

/// A link followed by a path is a path.
pub proof fn lemma_reach_prepend(adj: Adjacency, a: char, b: char, x: char)
    requires
        has_link(adj, a, b),
        reachable(adj, b, x),
    ensures
        reachable(adj, a, x),
{
    let p = choose|p: Seq<char>| #[trigger] linked_path(adj, p) && p.len() > 0 && p[0] == b && p.last() == x;
    let q = seq![a] + p;
    assert forall|i: int| 0 <= i < q.len() - 1 implies #[trigger] has_link(adj, q[i], q[i + 1]) by {
        if i > 0 {
            assert(q[i] == p[i - 1] && q[i + 1] == p[i]);
            assert(has_link(adj, p[i - 1], p[(i - 1) + 1]));
        }
    }
    assert(q.last() == p.last());
    assert(linked_path(adj, q));
}

/// A path followed by a path is a path.
pub proof fn lemma_reach_trans(adj: Adjacency, x: char, y: char, z: char)
    requires
        reachable(adj, x, y),
        reachable(adj, y, z),
    ensures
        reachable(adj, x, z),
{
    let p = choose|p: Seq<char>| #[trigger] linked_path(adj, p) && p.len() > 0 && p[0] == x && p.last() == y;
    let q = choose|q: Seq<char>| #[trigger] linked_path(adj, q) && q.len() > 0 && q[0] == y && q.last() == z;
    let r = p + q.drop_first();
    assert forall|i: int| 0 <= i < r.len() - 1 implies #[trigger] has_link(adj, r[i], r[i + 1]) by {
        if i < p.len() - 1 {
            assert(r[i] == p[i] && r[i + 1] == p[i + 1]);
        } else if i == p.len() - 1 {
            assert(r[i] == y);
            assert(r[i + 1] == q[1]);
            assert(has_link(adj, q[0int], q[0int + 1]));
        } else {
            let k = i - p.len() + 1;
            assert(r[i] == q[k] && r[i + 1] == q[k + 1]);
        }
    }
    if q.len() == 1 {
        assert(r =~= p);
    } else {
        assert(r.last() == q.last());
    }
    assert(linked_path(adj, r));
}

/// Along links that go both ways, a path can be walked back.
pub proof fn lemma_reach_back(adj: Adjacency, x: char, y: char)
    requires
        reachable(adj, x, y),
        forall|a: char, b: char| #[trigger] has_link(adj, a, b) ==> has_link(adj, b, a),
    ensures
        reachable(adj, y, x),
{
    let p = choose|p: Seq<char>| #[trigger] linked_path(adj, p) && p.len() > 0 && p[0] == x && p.last() == y;
    let r = p.reverse();
    assert forall|i: int| 0 <= i < r.len() - 1 implies #[trigger] has_link(adj, r[i], r[i + 1]) by {
        let n = p.len() as int;
        let k = n - 2 - i;
        assert(r[i] == p[k + 1] && r[i + 1] == p[k]);
        assert(has_link(adj, p[k], p[k + 1]));
    }
    assert(r[0] == y);
    assert(r.last() == x);
    assert(linked_path(adj, r));
}

/// Whether some node of `c` reaches every node of `c`.
pub open spec fn rooted(adj: Adjacency, c: Seq<char>) -> bool {
    exists|root: char| c.contains(root) && forall|x: char| #[trigger] c.contains(x) ==> reachable(adj, root, x)
}

/// A component closed under the links holds every node reached from one of its nodes.
proof fn lemma_closed_reach(adj: Adjacency, comps: Seq<Seq<char>>, i: int, p: Seq<char>)
    requires
        components_closed(adj, comps),
        0 <= i < comps.len(),
        linked_path(adj, p),
        p.len() > 0,
        comps[i].contains(p[0]),
    ensures
        comps[i].contains(p.last()),
    decreases p.len(),
{
    if p.len() > 1 {
        let q = p.drop_last();
        assert forall|j: int| 0 <= j < q.len() - 1 implies #[trigger] has_link(adj, q[j], q[j + 1]) by {
            assert(has_link(adj, p[j], p[j + 1]));
        }
        lemma_closed_reach(adj, comps, i, q);
        let j = p.len() - 2;
        assert(has_link(adj, p[j], p[j + 1]));
        assert(q.last() == p[j]);
    }
}

/// The components of a connected graph with at least one node are one.
pub proof fn lemma_one_component(adj: Adjacency, comps: Seq<Seq<char>>, x: char)
    requires
        adj.contains_key(x),
        connected(adj),
        shares_out(adj, comps),
        components_closed(undirected(adj), comps),
        forall|i: int| 0 <= i < comps.len() ==> (#[trigger] comps[i]).len() > 0,
    ensures
        comps.len() == 1,
{
    let k = lemma_flat_member(comps, x);
    if comps.len() != 1 {
        let other = if k == 0 { 1int } else { 0int };
        let z = comps[other][0];
        assert(comps[other].contains(z));
        lemma_flat_contains(comps, other, z);
        assert(adj.contains_key(z));
        assert(reachable(undirected(adj), x, z));
        let p = choose|p: Seq<char>| #[trigger] linked_path(undirected(adj), p) && p.len() > 0 && p[0] == x && p.last() == z;
        lemma_closed_reach(undirected(adj), comps, k, p);
        lemma_flat_disjoint(comps, k, other, z);
    }
}


/// A link turned the other way: a link of the graph.
proof fn lemma_transposed_link(adj: Adjacency, u: char, v: char)
    requires
        crate::graph::adjacency_wf(adj),
    ensures
        has_link(transposed(adj), u, v) <==> has_link(adj, v, u),
{
    if has_link(adj, v, u) {
        assert(adj.contains_key(u));
    }
}

/// A path of the graph turned the other way is a path of the graph with its links turned.
proof fn lemma_transposed_reach(adj: Adjacency, a: char, b: char)
    requires
        crate::graph::adjacency_wf(adj),
    ensures
        reachable(adj, a, b) <==> reachable(transposed(adj), b, a),
{
    let t = transposed(adj);
    if reachable(adj, a, b) {
        let p = choose|p: Seq<char>| #[trigger] linked_path(adj, p) && p.len() > 0 && p[0] == a && p.last() == b;
        let r = p.reverse();
        assert forall|i: int| 0 <= i < r.len() - 1 implies #[trigger] has_link(t, r[i], r[i + 1]) by {
            let n = p.len() as int;
            let k = n - 2 - i;
            assert(r[i] == p[k + 1] && r[i + 1] == p[k]);
            assert(has_link(adj, p[k], p[k + 1]));
            lemma_transposed_link(adj, r[i], r[i + 1]);
        }
        assert(r[0] == b && r.last() == a);
        assert(linked_path(t, r));
    }
    if reachable(t, b, a) {
        let p = choose|p: Seq<char>| #[trigger] linked_path(t, p) && p.len() > 0 && p[0] == b && p.last() == a;
        let r = p.reverse();
        assert forall|i: int| 0 <= i < r.len() - 1 implies #[trigger] has_link(adj, r[i], r[i + 1]) by {
            let n = p.len() as int;
            let k = n - 2 - i;
            assert(r[i] == p[k + 1] && r[i + 1] == p[k]);
            assert(has_link(t, p[k], p[k + 1]));
            lemma_transposed_link(adj, p[k], p[k + 1]);
        }
        assert(r[0] == a && r.last() == b);
        assert(linked_path(adj, r));
    }
}

/// Two nodes of a path, the first before the second: the first reaches the second.
proof fn lemma_path_reach(adj: Adjacency, p: Seq<char>, i: int, j: int)
    requires
        linked_path(adj, p),
        0 <= i <= j < p.len(),
    ensures
        reachable(adj, p[i], p[j]),
{
    let q = p.subrange(i, j + 1);
    assert forall|k: int| 0 <= k < q.len() - 1 implies #[trigger] has_link(adj, q[k], q[k + 1]) by {
        assert(q[k] == p[i + k] && q[k + 1] == p[i + k + 1]);
        assert(has_link(adj, p[i + k], p[(i + k) + 1]));
    }
    assert(q[0] == p[i] && q.last() == p[j]);
    assert(linked_path(adj, q));
}

/// Along a path whose first node comes at or before position `a` of `l` and whose last node
/// comes after it, the first node that comes after it.
proof fn lemma_first_after(l: Seq<char>, p: Seq<char>, a: int, i: int) -> (s: int)
    requires
        0 < i < p.len(),
        forall|k: int| 0 <= k < p.len() ==> l.contains(#[trigger] p[k]),
        l.index_of(p[0]) <= a,
        l.index_of(p[i]) > a,
    ensures
        0 < s <= i,
        l.index_of(p[s - 1]) <= a,
        l.index_of(p[s]) > a,
    decreases i,
{
    if l.index_of(p[i - 1]) <= a {
        i
    } else {
        lemma_first_after(l, p, a, i - 1)
    }
}

/// When `x` reaches `r` later in the order `l` in which a depth-first search backtracked, some
/// node later than `x` reaches `x` and `r`, and `x` reaches it.
proof fn lemma_finish_step(adj: Adjacency, l: Seq<char>, x: char, r: char) -> (z: char)
    requires
        finish_closed(adj, l, 0, Seq::empty(), Seq::empty()),
        l.no_duplicates(),
        forall|y: char| #[trigger] adj.contains_key(y) <==> l.contains(y),
        crate::graph::adjacency_wf(adj),
        l.contains(x),
        l.contains(r),
        l.index_of(x) < l.index_of(r),
        reachable(adj, x, r),
    ensures
        l.contains(z),
        l.index_of(x) < l.index_of(z),
        reachable(adj, z, x),
        reachable(adj, x, z),
        reachable(adj, z, r),
{
    let a = l.index_of(x);
    let p = choose|p: Seq<char>| #[trigger] linked_path(adj, p) && p.len() > 0 && p[0] == x && p.last() == r;
    assert forall|k: int| 0 <= k < p.len() implies l.contains(#[trigger] p[k]) by {
        if k > 0 {
            let q = k - 1;
            assert(has_link(adj, p[q], p[q + 1]));
        }
    }
    assert(p.len() > 1);
    let s = lemma_first_after(l, p, a, p.len() - 1);
    let t = l.index_of(p[s - 1]);
    let q = s - 1;
    assert(has_link(adj, p[q], p[q + 1]));
    assert(l[t] == p[s - 1]);
    assert(has_link(adj, l[t], p[s]));
    let zq = l.index_of(p[s]);
    if l.take(t).contains(p[s]) {
        let k = l.take(t).index_of(p[s]);
        assert(l[k] == p[s]);
        assert(k == zq);
    }
    assert(!Seq::<char>::empty().contains(p[s]));
    let q2 = choose|q2: int| t < q2 < l.len() && l[q2] == p[s] && reaches_back(adj, l, t, q2);
    assert(q2 == zq);
    assert(reachable(adj, l[q2], l[a]));
    lemma_path_reach(adj, p, 0, s);
    lemma_path_reach(adj, p, s, p.len() - 1);
    p[s]
}

/// A path of `t` from a node of component `j`, when each link from a component leads to it
/// or to an earlier one, stays in the components up to `j`.
proof fn lemma_earlier_reach(t: Adjacency, comps: Seq<Seq<char>>, j: int, p: Seq<char>, k: int)
    requires
        closed_up_to_earlier(t, comps),
        0 <= j < comps.len(),
        linked_path(t, p),
        p.len() > 0,
        comps[j].contains(p[0]),
        0 <= k < p.len(),
    ensures
        exists|i: int| 0 <= i <= j && #[trigger] comps[i].contains(p[k]),
    decreases k,
{
    if k == 0 {
        assert(comps[j].contains(p[0]));
    } else {
        lemma_earlier_reach(t, comps, j, p, k - 1);
        let i = choose|i: int| 0 <= i <= j && #[trigger] comps[i].contains(p[k - 1]);
        let q = k - 1;
        assert(has_link(t, p[q], p[q + 1]));
        if !comps[i].contains(p[k]) {
            assert(flat(comps.take(i)).contains(p[k]));
            let i2 = lemma_flat_member(comps.take(i), p[k]);
            assert(comps.take(i)[i2] == comps[i2]);
        }
    }
}

/// A node in two components of components without duplicates: the same component.
proof fn lemma_one_place(comps: Seq<Seq<char>>, i: int, j: int, x: char)
    requires
        flat(comps).no_duplicates(),
        0 <= i < comps.len(),
        0 <= j < comps.len(),
        comps[i].contains(x),
        comps[j].contains(x),
    ensures
        i == j,
    decreases comps.len(),
{
    let init = comps.drop_last();
    let f = flat(init);
    let n = comps.len() - 1;
    assert(flat(comps) == f + comps[n]);
    assert forall|a: int, b: int| 0 <= a < b < f.len() implies f[a] != f[b] by {
        assert(flat(comps)[a] == f[a]);
        assert(flat(comps)[b] == f[b]);
    }
    if i < n && j < n {
        assert(init[i] == comps[i] && init[j] == comps[j]);
        lemma_one_place(init, i, j, x);
    } else if i != j {
        let (e, o) = if i == n { (j, i) } else { (i, j) };
        assert(init[e] == comps[e]);
        lemma_flat_contains(init, e, x);
        let a = f.index_of(x);
        let b = comps[n].index_of(x);
        assert(flat(comps)[a] == x);
        assert(flat(comps)[f.len() + b] == x);
    }
}

/// The chain of the proof that the root of a component of the second search reaches each of
/// its nodes: from a node `y` that `x` reaches and that reaches `x` and the root, later nodes
/// are taken until the root is met.
proof fn lemma_root_reaches(adj: Adjacency, l: Seq<char>, comps: Seq<Seq<char>>, i: int, m: int, x: char, y: char)
    requires
        finish_closed(adj, l, 0, Seq::empty(), Seq::empty()),
        l.no_duplicates(),
        forall|w: char| #[trigger] adj.contains_key(w) <==> l.contains(w),
        crate::graph::adjacency_wf(adj),
        flat(comps).no_duplicates(),
        closed_up_to_earlier(transposed(adj), comps),
        forall|j: int| 0 <= j < comps.len() ==> #[trigger] rooted_late(transposed(adj), comps, l, j),
        0 <= i < comps.len(),
        0 <= m < l.len(),
        forall|m2: int| m < m2 < l.len() ==> #[trigger] flat(comps.take(i)).contains(l[m2]),
        comps[i].contains(x),
        l.contains(y),
        !flat(comps.take(i)).contains(y),
        reachable(adj, y, x),
        reachable(adj, x, y),
        reachable(adj, y, l[m]),
    ensures
        reachable(adj, l[m], x),
    decreases m - l.index_of(y),
{
    let r = l[m];
    if y != r {
        let a = l.index_of(y);
        if a > m {
            assert(flat(comps.take(i)).contains(l[a]));
        }
        assert(l.index_of(r) == m);
        let z = lemma_finish_step(adj, l, y, r);
        lemma_reach_trans(adj, z, y, x);
        lemma_reach_trans(adj, x, y, z);
        if flat(comps.take(i)).contains(z) {
            let j = lemma_flat_member(comps.take(i), z);
            assert(comps.take(i)[j] == comps[j]);
            assert(rooted_late(transposed(adj), comps, l, j));
            let mj = choose|mj: int| 0 <= mj < l.len() && comps[j].contains(l[mj])
                && (forall|w: char| #[trigger] comps[j].contains(w) ==> reachable(transposed(adj), l[mj], w))
                && (forall|m2: int| mj < m2 < l.len() ==> #[trigger] flat(comps.take(j)).contains(l[m2]));
            assert(reachable(transposed(adj), l[mj], z));
            lemma_transposed_reach(adj, z, l[mj]);
            lemma_reach_trans(adj, x, z, l[mj]);
            lemma_transposed_reach(adj, x, l[mj]);
            let p = choose|p: Seq<char>| #[trigger] linked_path(transposed(adj), p) && p.len() > 0 && p[0] == l[mj] && p.last() == x;
            lemma_earlier_reach(transposed(adj), comps, j, p, p.len() - 1);
            let i2 = choose|i2: int| 0 <= i2 <= j && #[trigger] comps[i2].contains(p[p.len() - 1]);
            lemma_one_place(comps, i, i2, x);
        }
        let b = l.index_of(z);
        if b > m {
            assert(flat(comps.take(i)).contains(l[b]));
        }
        lemma_root_reaches(adj, l, comps, i, m, x, z);
    }
}

/// When each link turned the other way from a component leads to it or to an earlier one, a
/// node `x` that reaches a node `y` of component `j` is in component `j` or an earlier one.
proof fn lemma_mutual_same(adj: Adjacency, comps: Seq<Seq<char>>, i: int, j: int, x: char, y: char)
    requires
        crate::graph::adjacency_wf(adj),
        flat(comps).no_duplicates(),
        closed_up_to_earlier(transposed(adj), comps),
        0 <= i < comps.len(),
        0 <= j < comps.len(),
        comps[i].contains(x),
        comps[j].contains(y),
        reachable(adj, x, y),
    ensures
        i <= j,
{
    lemma_transposed_reach(adj, x, y);
    let p = choose|p: Seq<char>| #[trigger] linked_path(transposed(adj), p) && p.len() > 0 && p[0] == y && p.last() == x;
    lemma_earlier_reach(transposed(adj), comps, j, p, p.len() - 1);
    let i2 = choose|i2: int| 0 <= i2 <= j && #[trigger] comps[i2].contains(p[p.len() - 1]);
    lemma_one_place(comps, i, i2, x);
}
} // verus!
