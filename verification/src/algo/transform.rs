//! Transformations of the links of a graph.
use vstd::prelude::*;
use crate::graph::renderer::LayoutEngine;
use crate::graph::{has_link, Adjacency, Graph};

verus! {

/// Whether a link goes from `a` to `b` and none back.
pub open spec fn one_way(adj: Adjacency, a: char, b: char) -> bool {
    has_link(adj, a, b) && !has_link(adj, b, a)
}

/// `adj` where every link that goes one way also goes back, with the same value.
pub open spec fn undirected(adj: Adjacency) -> Adjacency {
    Map::new(
        |k: char| adj.contains_key(k),
        |k: char| Map::new(
            |y: char| has_link(adj, k, y) || has_link(adj, y, k),
            |y: char| if has_link(adj, k, y) { adj[k][y] } else { adj[y][k] },
        ),
    )
}

/// `adj` where every link that goes one way goes the other way instead, with the same value.
pub open spec fn transposed(adj: Adjacency) -> Adjacency {
    Map::new(
        |k: char| adj.contains_key(k),
        |k: char| Map::new(
            |y: char| (has_link(adj, k, y) && !one_way(adj, k, y)) || one_way(adj, y, k),
            |y: char| if has_link(adj, k, y) { adj[k][y] } else { adj[y][k] },
        ),
    )
}

/// Whether the pair (a, b) comes before the pair (`i`-th node, `j`-th node) when the pairs of
/// `nodes` are walked row after row.
pub open spec fn pair_done(nodes: Seq<char>, a: char, b: char, i: int, j: int) -> bool {
    nodes.contains(a) && nodes.contains(b) && (nodes.index_of(a) < i || (nodes.index_of(a) == i
        && nodes.index_of(b) < j))
}

pub struct Transform;

impl Transform {
    /// Makes every link that goes one way go both ways (with the same value): such a link is
    /// deleted, then added back both ways.
    pub fn undirect<E: LayoutEngine>(g: &mut Graph<E>)
        requires
            old(g).wf(),
        ensures
            final(g).wf(),
            final(g).adj() == undirected(old(g).adj()),
            final(g).state() == old(g).state(),
            final(g).same_settings(old(g)),
            old(g).is_paused() ==> final(g).picture().node_map() == old(g).picture().node_map(),
    {
        let ghost orig = g.adj();
        proof {
            g.lemma_adjacency();
        }
        let m = g.adjacency_matrix();
        let nodes = g.nodes();
        let mut i: usize = 0;
        while i < nodes.len()
            invariant
                g.wf(),
                g.state() == old(g).state(),
                g.same_settings(old(g)),
                old(g).is_paused() ==> g.picture().node_map() == old(g).picture().node_map(),
                orig == old(g).adj(),
                crate::graph::adjacency_wf(orig),
                nodes@.no_duplicates(),
                forall|k: char| #[trigger] orig.contains_key(k) <==> nodes@.contains(k),
                m.wf(),
                m@.dom() == orig.dom(),
                forall|a: char| #[trigger] m@.contains_key(a) ==> m@[a].wf() && m@[a]@ == Map::new(
                    |b: char| orig.contains_key(b),
                    |b: char| crate::graph::matrix_entry(orig, a, b),
                ),
                i <= nodes@.len(),
                g.adj().dom() == orig.dom(),
                forall|x: char, y: char| #[trigger] has_link(g.adj(), x, y) <==> (has_link(orig, x, y)
                    || (one_way(orig, y, x) && pair_done(nodes@, y, x, i as int, 0))),
                forall|x: char, y: char| #[trigger] has_link(g.adj(), x, y) ==> g.adj()[x][y] == (if has_link(orig, x, y) {
                    orig[x][y]
                } else {
                    orig[y][x]
                }),
            decreases nodes@.len() - i,
        {
            let node_from = nodes[i];
            let mut j: usize = 0;
            while j < nodes.len()
                invariant
                    g.wf(),
                    g.state() == old(g).state(),
                    g.same_settings(old(g)),
                    old(g).is_paused() ==> g.picture().node_map() == old(g).picture().node_map(),
                    orig == old(g).adj(),
                    crate::graph::adjacency_wf(orig),
                    nodes@.no_duplicates(),
                    forall|k: char| #[trigger] orig.contains_key(k) <==> nodes@.contains(k),
                    m.wf(),
                    m@.dom() == orig.dom(),
                    forall|a: char| #[trigger] m@.contains_key(a) ==> m@[a].wf() && m@[a]@ == Map::new(
                        |b: char| orig.contains_key(b),
                        |b: char| crate::graph::matrix_entry(orig, a, b),
                    ),
                    i < nodes@.len(),
                    node_from == nodes@[i as int],
                    j <= nodes@.len(),
                    g.adj().dom() == orig.dom(),
                    forall|x: char, y: char| #[trigger] has_link(g.adj(), x, y) <==> (has_link(orig, x, y)
                        || (one_way(orig, y, x) && pair_done(nodes@, y, x, i as int, j as int))),
                    forall|x: char, y: char| #[trigger] has_link(g.adj(), x, y) ==> g.adj()[x][y] == (if has_link(orig, x, y) {
                        orig[x][y]
                    } else {
                        orig[y][x]
                    }),
                decreases nodes@.len() - j,
            {
                let node_to = nodes[j];
                proof {
                    assert(nodes@.contains(node_from));
                    assert(nodes@.contains(node_to));
                    assert(nodes@.index_of(node_from) == i) by {
                        lemma_index_of_unique(nodes@, i as int);
                    }
                    assert(nodes@.index_of(node_to) == j) by {
                        lemma_index_of_unique(nodes@, j as int);
                    }
                }
                let value = *m.get(&node_from).unwrap().get(&node_to).unwrap();
                let back = *m.get(&node_to).unwrap().get(&node_from).unwrap();
                let ghost before = g.adj();
                if value.is_some() && back.is_none() {
                    proof {
                        assert(one_way(orig, node_from, node_to));
                        assert(has_link(before, node_from, node_to));
                        assert(!has_link(before, node_to, node_from));
                    }
                    g.delete_link(node_from, node_to);
                    g.add_link(node_to, node_from, true, value.unwrap());
                }
                proof {
                    lemma_step_done(nodes@, i as int, j as int);
                    let cur = g.adj();
                    assert forall|x: char, y: char| #[trigger] has_link(cur, x, y) <==> (has_link(orig, x, y)
                        || (one_way(orig, y, x) && pair_done(nodes@, y, x, i as int, j + 1))) by {
                        assert(pair_done(nodes@, y, x, i as int, j + 1) <==> (pair_done(nodes@, y, x, i as int, j as int)
                            || (y == node_from && x == node_to)));
                        if value.is_some() && back.is_none() {
                            if !((x == node_from && y == node_to) || (x == node_to && y == node_from)) {
                                assert(has_link(cur, x, y) == has_link(before, x, y));
                            }
                        } else {
                            if y == node_from && x == node_to {
                                assert(!one_way(orig, node_from, node_to));
                            }
                        }
                    }
                    assert forall|x: char, y: char| #[trigger] has_link(cur, x, y) implies cur[x][y] == (if has_link(orig, x, y) {
                        orig[x][y]
                    } else {
                        orig[y][x]
                    }) by {
                        if value.is_some() && back.is_none() {
                            if !((x == node_from && y == node_to) || (x == node_to && y == node_from)) {
                                assert(has_link(before, x, y));
                            }
                        }
                    }
                }
                j = j + 1;
            }
            proof {
                lemma_row_done(nodes@, i as int);
            }
            i = i + 1;
        }
        proof {
            let cur = g.adj();
            let u = undirected(orig);
            assert forall|k: char| #[trigger] cur.contains_key(k) implies cur[k] =~= u[k] by {
                assert forall|y: char| #[trigger] cur[k].contains_key(y) <==> u[k].contains_key(y) by {
                    assert(has_link(cur, k, y) == cur[k].contains_key(y));
                    if has_link(orig, y, k) && !has_link(orig, k, y) {
                        assert(nodes@.contains(y));
                        assert(nodes@.contains(k));
                        assert(pair_done(nodes@, y, k, i as int, 0));
                    }
                }
                assert forall|y: char| #[trigger] cur[k].contains_key(y) implies cur[k][y] == u[k][y] by {
                    assert(has_link(cur, k, y));
                }
            }
            assert(cur =~= u);
        }
    }

    /// Makes every link that goes one way go the other way (with the same value): such a link
    /// is deleted, then added the other way.
    pub fn transpose<E: LayoutEngine>(g: &mut Graph<E>)
        requires
            old(g).wf(),
        ensures
            final(g).wf(),
            final(g).adj() == transposed(old(g).adj()),
            final(g).state() == old(g).state(),
            final(g).same_settings(old(g)),
            old(g).is_paused() ==> final(g).picture().node_map() == old(g).picture().node_map(),
    {
        let ghost orig = g.adj();
        proof {
            g.lemma_adjacency();
        }
        let m = g.adjacency_matrix();
        let nodes = g.nodes();
        let mut i: usize = 0;
        while i < nodes.len()
            invariant
                g.wf(),
                g.state() == old(g).state(),
                g.same_settings(old(g)),
                old(g).is_paused() ==> g.picture().node_map() == old(g).picture().node_map(),
                orig == old(g).adj(),
                crate::graph::adjacency_wf(orig),
                nodes@.no_duplicates(),
                forall|k: char| #[trigger] orig.contains_key(k) <==> nodes@.contains(k),
                m.wf(),
                m@.dom() == orig.dom(),
                forall|a: char| #[trigger] m@.contains_key(a) ==> m@[a].wf() && m@[a]@ == Map::new(
                    |b: char| orig.contains_key(b),
                    |b: char| crate::graph::matrix_entry(orig, a, b),
                ),
                i <= nodes@.len(),
                g.adj().dom() == orig.dom(),
                forall|x: char, y: char| #[trigger] has_link(g.adj(), x, y) <==> ((has_link(orig, x, y)
                    && !(one_way(orig, x, y) && pair_done(nodes@, x, y, i as int, 0))) || (one_way(orig, y, x) && pair_done(nodes@, y, x, i as int, 0))),
                forall|x: char, y: char| #[trigger] has_link(g.adj(), x, y) ==> g.adj()[x][y] == (if has_link(orig, x, y) {
                    orig[x][y]
                } else {
                    orig[y][x]
                }),
            decreases nodes@.len() - i,
        {
            let node_from = nodes[i];
            let mut j: usize = 0;
            while j < nodes.len()
                invariant
                    g.wf(),
                    g.state() == old(g).state(),
                    g.same_settings(old(g)),
                    old(g).is_paused() ==> g.picture().node_map() == old(g).picture().node_map(),
                    orig == old(g).adj(),
                    crate::graph::adjacency_wf(orig),
                    nodes@.no_duplicates(),
                    forall|k: char| #[trigger] orig.contains_key(k) <==> nodes@.contains(k),
                    m.wf(),
                    m@.dom() == orig.dom(),
                    forall|a: char| #[trigger] m@.contains_key(a) ==> m@[a].wf() && m@[a]@ == Map::new(
                        |b: char| orig.contains_key(b),
                        |b: char| crate::graph::matrix_entry(orig, a, b),
                    ),
                    i < nodes@.len(),
                    node_from == nodes@[i as int],
                    j <= nodes@.len(),
                    g.adj().dom() == orig.dom(),
                    forall|x: char, y: char| #[trigger] has_link(g.adj(), x, y) <==> ((has_link(orig, x, y)
                        && !(one_way(orig, x, y) && pair_done(nodes@, x, y, i as int, j as int))) || (one_way(orig, y, x) && pair_done(nodes@, y, x, i as int, j as int))),
                    forall|x: char, y: char| #[trigger] has_link(g.adj(), x, y) ==> g.adj()[x][y] == (if has_link(orig, x, y) {
                        orig[x][y]
                    } else {
                        orig[y][x]
                    }),
                decreases nodes@.len() - j,
            {
                let node_to = nodes[j];
                proof {
                    assert(nodes@.contains(node_from));
                    assert(nodes@.contains(node_to));
                    assert(nodes@.index_of(node_from) == i) by {
                        lemma_index_of_unique(nodes@, i as int);
                    }
                    assert(nodes@.index_of(node_to) == j) by {
                        lemma_index_of_unique(nodes@, j as int);
                    }
                }
                let value = *m.get(&node_from).unwrap().get(&node_to).unwrap();
                let back = *m.get(&node_to).unwrap().get(&node_from).unwrap();
                let ghost before = g.adj();
                if value.is_some() && back.is_none() {
                    proof {
                        assert(one_way(orig, node_from, node_to));
                        assert(has_link(before, node_from, node_to));
                        assert(!has_link(before, node_to, node_from));
                    }
                    g.delete_link(node_from, node_to);
                    g.add_link(node_to, node_from, false, value.unwrap());
                }
                proof {
                    lemma_step_done(nodes@, i as int, j as int);
                    let cur = g.adj();
                    assert forall|x: char, y: char| #[trigger] has_link(cur, x, y) <==> ((has_link(orig, x, y)
                        && !(one_way(orig, x, y) && pair_done(nodes@, x, y, i as int, j + 1))) || (one_way(orig, y, x) && pair_done(nodes@, y, x, i as int, j + 1))) by {
                        assert(pair_done(nodes@, y, x, i as int, j + 1) <==> (pair_done(nodes@, y, x, i as int, j as int)
                            || (y == node_from && x == node_to)));
                        assert(pair_done(nodes@, x, y, i as int, j + 1) <==> (pair_done(nodes@, x, y, i as int, j as int)
                            || (x == node_from && y == node_to)));
                        if value.is_some() && back.is_none() {
                            if !((x == node_from && y == node_to) || (x == node_to && y == node_from)) {
                                assert(has_link(cur, x, y) == has_link(before, x, y));
                            }
                        } else {
                            if y == node_from && x == node_to {
                                assert(!one_way(orig, node_from, node_to));
                            }
                            if x == node_from && y == node_to {
                                assert(!one_way(orig, node_from, node_to));
                            }
                        }
                    }
                    assert forall|x: char, y: char| #[trigger] has_link(cur, x, y) implies cur[x][y] == (if has_link(orig, x, y) {
                        orig[x][y]
                    } else {
                        orig[y][x]
                    }) by {
                        if value.is_some() && back.is_none() {
                            if !((x == node_from && y == node_to) || (x == node_to && y == node_from)) {
                                assert(has_link(before, x, y));
                            }
                        }
                    }
                }
                j = j + 1;
            }
            proof {
                lemma_row_done(nodes@, i as int);
            }
            i = i + 1;
        }
        proof {
            let cur = g.adj();
            let u = transposed(orig);
            assert forall|k: char| #[trigger] cur.contains_key(k) implies cur[k] =~= u[k] by {
                assert forall|y: char| #[trigger] cur[k].contains_key(y) <==> u[k].contains_key(y) by {
                    assert(has_link(cur, k, y) == cur[k].contains_key(y));
                    if has_link(orig, y, k) && !has_link(orig, k, y) {
                        assert(nodes@.contains(y));
                        assert(nodes@.contains(k));
                        assert(pair_done(nodes@, y, k, i as int, 0));
                    }
                    if has_link(orig, k, y) && !has_link(orig, y, k) {
                        assert(nodes@.contains(y));
                        assert(nodes@.contains(k));
                        assert(pair_done(nodes@, k, y, i as int, 0));
                    }
                }
                assert forall|y: char| #[trigger] cur[k].contains_key(y) implies cur[k][y] == u[k][y] by {
                    assert(has_link(cur, k, y));
                }
            }
            assert(cur =~= u);
        }
    }
}

/// In a sequence without duplicates, the index of the element at `i` is `i`.
pub proof fn lemma_index_of_unique<A>(s: Seq<A>, i: int)
    requires
        s.no_duplicates(),
        0 <= i < s.len(),
    ensures
        s.contains(s[i]),
        s.index_of(s[i]) == i,
{
    assert(s.contains(s[i]));
    let q = s.index_of(s[i]);
    assert(s[q] == s[i]);
}

/// One more pair of a row is done.
proof fn lemma_step_done(nodes: Seq<char>, i: int, j: int)
    requires
        nodes.no_duplicates(),
        0 <= i < nodes.len(),
        0 <= j < nodes.len(),
    ensures
        forall|a: char, b: char| #[trigger] pair_done(nodes, a, b, i, j + 1) <==> (pair_done(nodes, a, b, i, j)
            || (a == nodes[i] && b == nodes[j])),
{
    assert forall|a: char, b: char| #[trigger] pair_done(nodes, a, b, i, j + 1) <==> (pair_done(nodes, a, b, i, j)
        || (a == nodes[i] && b == nodes[j])) by {
        if a == nodes[i] && b == nodes[j] {
            lemma_index_of_unique(nodes, i);
            lemma_index_of_unique(nodes, j);
        }
        if nodes.contains(a) && nodes.contains(b) && nodes.index_of(a) == i && nodes.index_of(b) == j {
            assert(nodes[nodes.index_of(a)] == a);
            assert(nodes[nodes.index_of(b)] == b);
        }
    }
}

/// A whole row is done.
proof fn lemma_row_done(nodes: Seq<char>, i: int)
    requires
        nodes.no_duplicates(),
        0 <= i < nodes.len(),
    ensures
        forall|a: char, b: char| #[trigger] pair_done(nodes, a, b, i + 1, 0) <==> pair_done(nodes, a, b, i, nodes.len() as int),
{
    assert forall|a: char, b: char| #[trigger] pair_done(nodes, a, b, i + 1, 0) <==> pair_done(nodes, a, b, i, nodes.len() as int) by {
        if nodes.contains(b) {
            let q = nodes.index_of(b);
            assert(nodes[q] == b);
        }
    }
}

} // verus!
