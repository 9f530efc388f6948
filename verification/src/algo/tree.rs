//! Trees: breadth-first search trees and minimal spanning trees.
use vstd::prelude::*;
use crate::algo::connectivity::{comps_view, connected, lemma_one_component, undirected_copy, Connectivity};
use crate::algo::transform::{undirected, Transform};
use crate::graph::renderer::{LayoutEngine, Renderer};
use crate::graph::{has_link, joined, rows_view, rows_wf, sub_adjacency, Adjacency, Graph};
use crate::keymap::KeyMap;

verus! {

/// Whether `v` holds `x`.
fn holds(v: &Vec<char>, x: char) -> (b: bool)
    ensures
        b == v@.contains(x),
{
    let mut i: usize = 0;
    while i < v.len()
        invariant
            i <= v@.len(),
            forall|j: int| 0 <= j < i ==> v@[j] != x,
        decreases v@.len() - i,
    {
        if v[i] == x {
            assert(v@[i as int] == x);
            return true;
        }
        i = i + 1;
    }
    false
}

/// Whether a queue entry after `head` has the child `x`.
fn queued(queue: &Vec<(i32, char, char)>, head: usize, x: char) -> (b: bool)
    requires
        head <= queue@.len(),
    ensures
        b == exists|j: int| head <= j < queue@.len() && (#[trigger] queue@[j]).2 == x,
{
    let mut i: usize = head;
    while i < queue.len()
        invariant
            head <= i <= queue@.len(),
            forall|j: int| head <= j < i ==> (#[trigger] queue@[j]).2 != x,
        decreases queue@.len() - i,
    {
        if queue[i].2 == x {
            assert(queue@[i as int].2 == x);
            return true;
        }
        i = i + 1;
    }
    false
}

/// What a breadth-first search found: its queue entries (level, parent, node), in the
/// order in which the nodes were reached (the root comes first, with the parent ' '), and
/// the links it deleted.
pub struct Traversal {
    pub entries: Vec<(i32, char, char)>,
    pub deleted_links: Vec<(char, char)>,
}

/// A sequence of distinct characters has at most 0x110000 elements.
pub proof fn lemma_chars_bound(s: Seq<char>)
    requires
        s.no_duplicates(),
    ensures
        s.len() <= 0x110000,
{
    let codes = s.map_values(|c: char| c as u32 as int);
    let all = Seq::new(0x110000, |i: int| i);
    assert forall|i: int, j: int| 0 <= i < j < codes.len() implies codes[i] != codes[j] by {
        <char as crate::keymap::MapKey>::lemma_rank_injective(s[i], s[j]);
    }
    assert forall|i: int| 0 <= i < codes.len() implies all.contains(#[trigger] codes[i]) by {
        let c = s[i];
        vstd::utf8::char_is_scalar(c);
        assert(all[codes[i]] == codes[i]);
    }
    crate::graph::lemma_distinct_within(codes, all);
}

pub struct Tree {}

impl Tree {
    /// The breadth-first search from `root` on `tree`: each node reached is stroked in
    /// green; a link to a node already waiting in the queue is colored red and deleted.
    #[verifier::rlimit(50)]
    fn traverse<E: LayoutEngine>(tree: &mut Graph<E>, root: char) -> (t: Traversal)
        requires
            old(tree).wf(),
            !old(tree).is_paused(),
            old(tree).adj().contains_key(root),
            forall|x: char, y: char| #[trigger] has_link(old(tree).adj(), x, y) ==> has_link(old(tree).adj(), y, x),
            forall|y: char| #[trigger] old(tree).adj().contains_key(y) ==> crate::algo::connectivity::reachable(old(tree).adj(), root, y),
        ensures
            final(tree).wf(),
            !final(tree).is_paused(),
            final(tree).adj().dom() == old(tree).adj().dom(),
            t.entries@.len() > 0,
            t.entries@[0].2 == root,
            tree_order(final(tree).adj(), reached(t.entries@)),
            leveled(old(tree).adj(), final(tree).adj(), reached(t.entries@), levels(t.entries@)),
            sub_adjacency(final(tree).adj(), old(tree).adj()),
            forall|x: char, y: char| #[trigger] has_link(final(tree).adj(), x, y) ==> has_link(old(tree).adj(), x, y),
            forall|x: char, y: char| #[trigger] has_link(old(tree).adj(), x, y) ==> has_link(final(tree).adj(), x, y)
                || t.deleted_links@.contains((x, y)) || t.deleted_links@.contains((y, x)),
            forall|i: int| 0 <= i < t.deleted_links@.len() ==> !joined(final(tree).adj(), (#[trigger] t.deleted_links@[i]).0, t.deleted_links@[i].1)
                && old(tree).adj().contains_key(t.deleted_links@[i].0) && old(tree).adj().contains_key(t.deleted_links@[i].1)
                && t.deleted_links@[i].0 != t.deleted_links@[i].1,
            forall|i: int, j: int| 0 <= i < j < t.deleted_links@.len() ==> ((#[trigger] t.deleted_links@[i]).0 != (#[trigger] t.deleted_links@[j]).0
                || t.deleted_links@[i].1 != t.deleted_links@[j].1) && (t.deleted_links@[i].0 != t.deleted_links@[j].1
                || t.deleted_links@[i].1 != t.deleted_links@[j].0),
            forall|i: int| 0 <= i < t.deleted_links@.len() ==> has_link(old(tree).adj(), (#[trigger] t.deleted_links@[i]).0, t.deleted_links@[i].1),
            forall|j: int| 0 <= j < t.entries@.len() ==> old(tree).adj().contains_key(#[trigger] t.entries@[j].2),
            forall|j: int| 0 <= j < t.entries@.len() ==> 0 <= (#[trigger] t.entries@[j]).0 < 0x110000,
            t.entries@.len() <= 0x110000,
            forall|m: int| 1 <= m < t.entries@.len() ==> has_link(final(tree).adj(), (#[trigger] t.entries@[m]).1, t.entries@[m].2),
            forall|m: int| 1 <= m < t.entries@.len() ==> #[trigger] hangs(t.entries@, m),
    {
        let ghost dom = tree.adj().dom();
        let ghost orig = tree.adj();
        proof {
            tree.lemma_nodes_finite();
            tree.lemma_adjacency();
        }
        let ghost ns = tree.node_seq();
        proof {
            lemma_chars_bound(ns);
        }
        let mut deleted_links: Vec<(char, char)> = Vec::new();
        let mut visited: Vec<char> = Vec::new();
        let mut queue: Vec<(i32, char, char)> = Vec::new();
        let mut head: usize = 0;
        queue.push((0, ' ', root));
        let ghost mut parents: Seq<int> = seq![0int];
        proof {
            assert(reached(queue@) =~= seq![root]);
            assert(levels(queue@) =~= seq![0int]);
        }
        tree.color_label(root, (0, 255, 0));
        while head < queue.len()
            invariant
                bfs_state(tree.adj(), orig, reached(queue@), parents, head as int),
                bfs_levels(tree.adj(), orig, reached(queue@), parents, levels(queue@), head as int),
                forall|m: int| 1 <= m < queue@.len() ==> (#[trigger] queue@[m]).1 == reached(queue@)[parents[m]],
                forall|x: char, y: char| #[trigger] has_link(orig, x, y) ==> has_link(orig, y, x),
                queue@.len() > 0,
                queue@[0].2 == root,
                forall|y: char| #[trigger] orig.contains_key(y) ==> crate::algo::connectivity::reachable(orig, root, y),
                tree.wf(),
                !tree.is_paused(),
                tree.adj().dom() == dom,
                dom == orig.dom(),
                dom.finite(),
                dom.len() == ns.len(),
                ns.no_duplicates(),
                forall|x: char| #[trigger] dom.contains(x) <==> ns.contains(x),
                crate::graph::adjacency_wf(orig),
                forall|i: int| 0 <= i < deleted_links@.len() ==> has_link(orig, (#[trigger] deleted_links@[i]).0, deleted_links@[i].1),
                head <= queue@.len(),
                forall|j: int| 0 <= j < queue@.len() ==> dom.contains(#[trigger] queue@[j].2),
                forall|j: int| 0 <= j < queue@.len() ==> 0 <= (#[trigger] queue@[j]).0 <= j,
                visited@.len() == head,
                forall|j: int| 0 <= j < head ==> (#[trigger] queue@[j]).2 == visited@[j],
                forall|i: int, j: int| 0 <= i < j < queue@.len() ==> (#[trigger] queue@[i]).2 != (#[trigger] queue@[j]).2,
                queue@.len() <= ns.len(),
                ns.len() <= 0x110000,
                forall|x: char, y: char| #[trigger] has_link(tree.adj(), x, y) ==> has_link(orig, x, y),
                sub_adjacency(tree.adj(), orig),
                forall|x: char, y: char| #[trigger] has_link(orig, x, y) ==> has_link(tree.adj(), x, y)
                    || deleted_links@.contains((x, y)) || deleted_links@.contains((y, x)),
                forall|i: int| 0 <= i < deleted_links@.len() ==> !joined(tree.adj(), (#[trigger] deleted_links@[i]).0, deleted_links@[i].1)
                    && dom.contains(deleted_links@[i].0) && dom.contains(deleted_links@[i].1)
                    && deleted_links@[i].0 != deleted_links@[i].1,
                forall|i: int, j: int| 0 <= i < j < deleted_links@.len() ==> ((#[trigger] deleted_links@[i]).0 != (#[trigger] deleted_links@[j]).0
                    || deleted_links@[i].1 != deleted_links@[j].1) && (deleted_links@[i].0 != deleted_links@[j].1
                    || deleted_links@[i].1 != deleted_links@[j].0),
            decreases ns.len() - head,
        {
            let (step, _parent, child) = queue[head];
            head = head + 1;
            visited.push(child);
            assert(dom.contains(queue@[head - 1].2));
            tree.color_node(child, (0, 192, 0));
            let neighbors = tree.neighbors(child);
            proof {
                assert(reached(queue@)[head - 1] == child);
                lemma_bfs_begin(tree.adj(), orig, reached(queue@), parents, head - 1, neighbors@);
                lemma_levels_begin(tree.adj(), orig, reached(queue@), parents, levels(queue@), head - 1, neighbors@);
                tree.lemma_adjacency();
                assert forall|y: char| #[trigger] neighbors@.contains(y) implies dom.contains(y) by {
                    assert(tree.adj()[child].contains_key(y));
                }
            }
            let mut k: usize = 0;
            while k < neighbors.len()
                invariant
                    bfs_scan(tree.adj(), orig, reached(queue@), parents, head - 1, neighbors@, k as int),
                    forall|m: int| 1 <= m < queue@.len() ==> (#[trigger] queue@[m]).1 == reached(queue@)[parents[m]],
                    bfs_levels_scan(tree.adj(), orig, reached(queue@), parents, levels(queue@), head - 1, neighbors@, k as int),
                    forall|x: char, y: char| #[trigger] has_link(orig, x, y) ==> has_link(orig, y, x),
                    queue@[head - 1].0 == step,
                    reached(queue@)[head - 1] == child,
                    queue@.len() > 0,
                    queue@[0].2 == root,
                    tree.wf(),
                    !tree.is_paused(),
                    tree.adj().dom() == dom,
                    dom.contains(child),
                    forall|y: char| #[trigger] neighbors@.contains(y) ==> dom.contains(y),
                    forall|j: int| k <= j < neighbors@.len() ==> has_link(tree.adj(), child, #[trigger] neighbors@[j]),
                    neighbors@.no_duplicates(),
                    0 < head <= queue@.len(),
                    forall|j: int| 0 <= j < queue@.len() ==> dom.contains(#[trigger] queue@[j].2),
                    forall|j: int| 0 <= j < queue@.len() ==> 0 <= (#[trigger] queue@[j]).0 <= j,
                    visited@.len() == head,
                    forall|j: int| 0 <= j < head ==> (#[trigger] queue@[j]).2 == visited@[j],
                    forall|i: int, j: int| 0 <= i < j < queue@.len() ==> (#[trigger] queue@[i]).2 != (#[trigger] queue@[j]).2,
                    queue@.len() <= ns.len(),
                    ns.len() <= 0x110000,
                    dom.finite(),
                    dom.len() == ns.len(),
                    ns.no_duplicates(),
                    forall|x: char| #[trigger] dom.contains(x) <==> ns.contains(x),
                    forall|x: char, y: char| #[trigger] has_link(tree.adj(), x, y) ==> has_link(orig, x, y),
                    sub_adjacency(tree.adj(), orig),
                    forall|x: char, y: char| #[trigger] has_link(orig, x, y) ==> has_link(tree.adj(), x, y)
                        || deleted_links@.contains((x, y)) || deleted_links@.contains((y, x)),
                    forall|i: int| 0 <= i < deleted_links@.len() ==> !joined(tree.adj(), (#[trigger] deleted_links@[i]).0, deleted_links@[i].1)
                        && dom.contains(deleted_links@[i].0) && dom.contains(deleted_links@[i].1)
                        && deleted_links@[i].0 != deleted_links@[i].1,
                    forall|i: int, j: int| 0 <= i < j < deleted_links@.len() ==> ((#[trigger] deleted_links@[i]).0 != (#[trigger] deleted_links@[j]).0
                        || deleted_links@[i].1 != deleted_links@[j].1) && (deleted_links@[i].0 != deleted_links@[j].1
                        || deleted_links@[i].1 != deleted_links@[j].0),
                    crate::graph::adjacency_wf(orig),
                    forall|i: int| 0 <= i < deleted_links@.len() ==> has_link(orig, (#[trigger] deleted_links@[i]).0, deleted_links@[i].1),
                    dom == orig.dom(),
                    0 <= step <= head - 1,
                    k <= neighbors@.len(),
                decreases neighbors@.len() - k,
            {
                let node = neighbors[k];
                assert(has_link(tree.adj(), child, neighbors@[k as int]));
                assert(neighbors@.contains(node));
                if node != child && !holds(&visited, node) {
                    assert forall|i: int| 0 <= i < head implies reached(queue@)[i] != node by {
                        assert(visited@[i] == queue@[i].2);
                    }
                    assert(!reached(queue@).take(head as int).contains(node));
                    if queued(&queue, head, node) {
                        let ghost before = tree.adj();
                        let ghost dl = deleted_links@;
                        proof {
                            let jq = choose|j: int| head <= j < queue@.len() && (#[trigger] queue@[j]).2 == node;
                            assert(reached(queue@)[jq] == node);
                            lemma_bfs_delete(before, orig, reached(queue@), parents, head - 1, neighbors@, k as int);
                            lemma_levels_delete(before, orig, reached(queue@), parents, levels(queue@), head - 1, neighbors@, k as int);
                        }
                        tree.color_link(child, node, (192, 0, 0));
                        let ghost mid = tree.adj();
                        tree.delete_link(child, node);
                        deleted_links.push((child, node));
                        proof {
                            assert(has_link(before, child, node));
                            assert forall|i: int| 0 <= i < deleted_links@.len() implies has_link(orig, (#[trigger] deleted_links@[i]).0, deleted_links@[i].1) by {
                                if i < dl.len() {
                                    assert(deleted_links@[i] == dl[i]);
                                }
                            }
                            assert(!joined(tree.adj(), child, node));
                            assert forall|j: int| k < j < neighbors@.len() implies has_link(tree.adj(), child, #[trigger] neighbors@[j]) by {
                                assert(neighbors@[j] != neighbors@[k as int]);
                                assert(has_link(mid, child, neighbors@[j]));
                            }
                            assert forall|x: char, y: char| #[trigger] has_link(tree.adj(), x, y) implies has_link(orig, x, y)
                                && tree.adj()[x][y] == orig[x][y] by {
                                assert(has_link(mid, x, y));
                                assert(has_link(before, x, y));
                            }
                            assert(tree.adj().dom() =~= orig.dom());
                            assert(sub_adjacency(tree.adj(), orig));
                            assert forall|x: char, y: char| #[trigger] has_link(orig, x, y) implies has_link(tree.adj(), x, y)
                                || deleted_links@.contains((x, y)) || deleted_links@.contains((y, x)) by {
                                if !has_link(tree.adj(), x, y) && !((x == child && y == node) || (x == node && y == child)) {
                                    assert(!has_link(mid, x, y) || !has_link(before, x, y));
                                    if dl.contains((x, y)) {
                                        let q = dl.index_of((x, y));
                                        assert(deleted_links@[q] == (x, y));
                                    } else if dl.contains((y, x)) {
                                        let q = dl.index_of((y, x));
                                        assert(deleted_links@[q] == (y, x));
                                    }
                                } else if !has_link(tree.adj(), x, y) {
                                    assert(deleted_links@[dl.len() as int] == (child, node));
                                }
                            }
                            assert forall|i: int| 0 <= i < deleted_links@.len() implies !joined(tree.adj(), (#[trigger] deleted_links@[i]).0, deleted_links@[i].1)
                                && dom.contains(deleted_links@[i].0) && dom.contains(deleted_links@[i].1)
                                && deleted_links@[i].0 != deleted_links@[i].1 by {
                                if i < dl.len() {
                                    assert(deleted_links@[i] == dl[i]);
                                    assert(!joined(before, dl[i].0, dl[i].1));
                                    assert(!joined(mid, dl[i].0, dl[i].1));
                                } else {
                                    assert(has_link(orig, child, node));
                                }
                            }
                            assert forall|i: int, j: int| 0 <= i < j < deleted_links@.len() implies ((#[trigger] deleted_links@[i]).0 != (#[trigger] deleted_links@[j]).0
                                || deleted_links@[i].1 != deleted_links@[j].1) && (deleted_links@[i].0 != deleted_links@[j].1
                                || deleted_links@[i].1 != deleted_links@[j].0) by {
                                if j == dl.len() {
                                    assert(deleted_links@[i] == dl[i]);
                                    assert(!joined(before, dl[i].0, dl[i].1));
                                    assert(has_link(before, child, node));
                                } else {
                                    assert(deleted_links@[i] == dl[i]);
                                    assert(deleted_links@[j] == dl[j]);
                                }
                            }
                        }
                    } else {
                        tree.color_label(node, (0, 255, 0));
                        let ghost q0 = queue@;
                        proof {
                            assert forall|j: int| 0 <= j < q0.len() implies reached(q0)[j] != node by {
                                if j >= head {
                                    assert(q0[j].2 != node);
                                }
                            }
                            lemma_bfs_enqueue(tree.adj(), orig, reached(q0), parents, head - 1, neighbors@, k as int);
                            lemma_levels_enqueue(tree.adj(), orig, reached(q0), parents, levels(q0), head - 1, neighbors@, k as int);
                            parents = parents.push(head - 1);
                            let s0 = queue@.map_values(|e: (i32, char, char)| e.2);
                            let s1 = s0.push(node);
                            assert forall|i: int, j: int| 0 <= i < j < s1.len() implies s1[i] != s1[j] by {
                                if j == s0.len() && i < head {
                                    assert(queue@[i].2 == visited@[i]);
                                    assert(visited@.contains(visited@[i]));
                                } else if j == s0.len() {
                                    assert(queue@[i].2 == s0[i]);
                                } else {
                                    assert(queue@[i].2 != queue@[j].2);
                                }
                            }
                            assert forall|j: int| 0 <= j < s1.len() implies ns.contains(#[trigger] s1[j]) by {
                                if j < s0.len() {
                                    assert(dom.contains(queue@[j].2));
                                }
                            }
                            crate::graph::lemma_distinct_within(s1, ns);
                        }
                        queue.push((step + 1, child, node));
                        proof {
                            assert(reached(queue@) =~= reached(q0).push(node));
                            assert forall|m: int| 1 <= m < queue@.len() implies (#[trigger] queue@[m]).1 == reached(queue@)[parents[m]] by {
                                if m < q0.len() {
                                    assert(queue@[m] == q0[m]);
                                    assert(parents[m] < m);
                                }
                            }
                            assert(levels(q0)[head - 1] == step);
                            assert(levels(queue@) =~= levels(q0).push(levels(q0)[head - 1] + 1));
                        }
                    }
                } else {
                    proof {
                        let i = if node == child { head - 1 } else { visited@.index_of(node) as int };
                        assert(visited@[i] == queue@[i].2 || node == child);
                        assert(reached(queue@).take(head as int)[i] == node);
                        lemma_bfs_skip(tree.adj(), orig, reached(queue@), parents, head - 1, neighbors@, k as int);
                        lemma_levels_skip(tree.adj(), orig, reached(queue@), parents, levels(queue@), head - 1, neighbors@, k as int);
                    }
                }
                k = k + 1;
            }
            proof {
                lemma_bfs_end(tree.adj(), orig, reached(queue@), parents, head - 1, neighbors@);
                lemma_levels_end(tree.adj(), orig, reached(queue@), parents, levels(queue@), head - 1, neighbors@);
            }
        }
        proof {
            assert forall|j: int| 0 <= j < reached(queue@).len() implies tree.adj().contains_key(#[trigger] reached(queue@)[j]) by {
                assert(dom.contains(queue@[j].2));
            }
            lemma_bfs_final(tree.adj(), orig, reached(queue@), parents);
            lemma_levels_final(tree.adj(), orig, reached(queue@), parents, levels(queue@));
            assert forall|m: int| 1 <= m < queue@.len() implies has_link(tree.adj(), (#[trigger] queue@[m]).1, queue@[m].2) by {
                assert(reached(queue@)[m] == queue@[m].2);
            }
            assert forall|m: int| 1 <= m < queue@.len() implies #[trigger] hangs(queue@, m) by {
                let pm = parents[m];
                assert(0 <= pm < m);
                assert(reached(queue@)[m] == queue@[m].2);
                assert(reached(queue@)[pm] == queue@[pm].2);
                assert(has_link(tree.adj(), reached(queue@)[pm], reached(queue@)[m]));
                assert(levels(queue@)[m] == levels(queue@)[pm] + 1);
                lemma_entry_level(queue@, pm, queue@[m].0 as int);
            }
        }
        Traversal { entries: queue, deleted_links }
    }
}


/// Whether some entry has the level `s`.
fn level_exists(entries: &Vec<(i32, char, char)>, s: i32) -> (b: bool)
    ensures
        b == exists|j: int| 0 <= j < entries@.len() && (#[trigger] entries@[j]).0 == s,
{
    let mut i: usize = 0;
    while i < entries.len()
        invariant
            i <= entries@.len(),
            forall|j: int| 0 <= j < i ==> (#[trigger] entries@[j]).0 != s,
        decreases entries@.len() - i,
    {
        if entries[i].0 == s {
            assert(entries@[i as int].0 == s);
            return true;
        }
        i = i + 1;
    }
    false
}

/// The nodes reached at level `s - 1` among `entries`, each once, in the order in which they
/// were first reached.
pub open spec fn level_nodes(entries: Seq<(i32, char, char)>, s: int) -> Seq<char>
    decreases entries.len(),
{
    if entries.len() == 0 {
        Seq::empty()
    } else {
        let before = level_nodes(entries.drop_last(), s);
        let e = entries.last();
        if e.0 == s - 1 && !before.contains(e.2) {
            before.push(e.2)
        } else {
            before
        }
    }
}

/// The nodes reached at level `s` from `parent` among `entries`, in order.
pub open spec fn children_of(entries: Seq<(i32, char, char)>, s: int, parent: char) -> Seq<char>
    decreases entries.len(),
{
    if entries.len() == 0 {
        Seq::empty()
    } else {
        let before = children_of(entries.drop_last(), s, parent);
        let e = entries.last();
        if e.0 == s && e.1 == parent {
            before.push(e.2)
        } else {
            before
        }
    }
}

/// Where the nodes of level `s` stand: `60 * s` below the height `y0` of the root (wrapping).
pub open spec fn level_y(y0: i32, s: int) -> i32 {
    vstd::wrapping::i32_specs::wrapping_add(y0, (s * 60) as i32)
}

/// Whether entry `j` reaches a node at a level under the root from a node reached a level above.
pub open spec fn hangs(entries: Seq<(i32, char, char)>, j: int) -> bool {
    1 <= entries[j].0 && level_nodes(entries, entries[j].0 as int).contains(entries[j].1)
}

/// `a / b` rounded toward zero, as integer division does (for `b > 0`).
pub open spec fn div_toward_zero(a: int, b: int) -> int {
    if a >= 0 {
        a / b
    } else {
        -((-a) / b)
    }
}

/// The sum, wrapping as an `i32`, of the x coordinates of the centers of `ns` in the picture `r`.
pub open spec fn x_sum(r: Renderer, ns: Seq<char>) -> i32
    decreases ns.len(),
{
    if ns.len() == 0 {
        0
    } else {
        vstd::wrapping::i32_specs::wrapping_add(x_sum(r, ns.drop_last()), r.node_map()@[ns.last()]@.center.x)
    }
}

/// Whether, in the picture `r`, `parent` stands above the middle of its children of level `s`
/// when it has some: at the mean of their x coordinates (summed wrapping as an `i32`, and
/// divided toward zero).
pub open spec fn centered(r: Renderer, entries: Seq<(i32, char, char)>, s: int, parent: char) -> bool {
    let cs = children_of(entries, s, parent);
    cs.len() > 0 ==> r.node_map()@[parent]@.center.x == div_toward_zero(x_sum(r, cs) as int, cs.len() as int)
}

/// Whether, in `t`, two different nodes reached at level `s` from the same node of `ps`
/// (entries `es`) stand at different x coordinates.
pub open spec fn apart_under<E: LayoutEngine>(t: Graph<E>, es: Seq<(i32, char, char)>, s: int, ps: Seq<char>) -> bool {
    forall|j: int, k: int| 0 <= j < es.len() && 0 <= k < es.len() && (#[trigger] es[j]).0 == s && (#[trigger] es[k]).0 == s
        && ps.contains(es[j].1) && es[j].1 == es[k].1 && es[j].2 != es[k].2
        ==> t.node_state(es[j].2).center.x != t.node_state(es[k].2).center.x
}

/// Whether, in `t`, the nodes reached at level `s` from a node of `ps` have frozen positions.
pub open spec fn frozen_under<E: LayoutEngine>(t: Graph<E>, es: Seq<(i32, char, char)>, s: int, ps: Seq<char>) -> bool {
    forall|j: int| 0 <= j < es.len() && (#[trigger] es[j]).0 == s && ps.contains(es[j].1)
        ==> t.node_state(es[j].2).center_freezed
}

/// Whether, in `t`, the children of one node at level `s` (those of the entries `es` that
/// hang from a node of the level above) stand at different x coordinates, their positions
/// frozen.
pub open spec fn siblings_apart<E: LayoutEngine>(t: Graph<E>, es: Seq<(i32, char, char)>, s: int) -> bool {
    &&& apart_under(t, es, s, level_nodes(es, s))
    &&& frozen_under(t, es, s, level_nodes(es, s))
}

/// Whether the entries `es` (level, node reached from, node reached) list a breadth-first
/// search of the links `u` from `root`: `root` first, at level 0; each node of `u` once;
/// each other node reached through a link of `u` from a node of the level above.
pub open spec fn search_entries(u: Adjacency, root: char, es: Seq<(i32, char, char)>) -> bool {
    &&& es.len() > 0
    &&& es[0].0 == 0
    &&& es[0].2 == root
    &&& distinct_nodes(es)
    &&& forall|n: char| #[trigger] u.contains_key(n) <==> reached(es).contains(n)
    &&& forall|j: int| 1 <= j < es.len() ==> #[trigger] hangs(es, j) && has_link(u, es[j].1, es[j].2)
}

/// Whether, in the tree picture `t`, the children of one node at the deepest level of the
/// search `es` stand at different x coordinates (their positions frozen).
pub open spec fn deepest_apart<E: LayoutEngine>(t: Graph<E>, es: Seq<(i32, char, char)>) -> bool {
    forall|s: int| (forall|j: int| 0 <= j < es.len() ==> (#[trigger] es[j]).0 <= s) ==> #[trigger] siblings_apart(t, es, s)
}

/// In a tree picture whose deepest level keeps children apart, two different nodes reached
/// from the same node at the deepest level of the search stand at different x coordinates.
pub proof fn law_deepest_children_apart<E: LayoutEngine>(t: Graph<E>, u: Adjacency, root: char, es: Seq<(i32, char, char)>, j: int, k: int)
    requires
        search_entries(u, root, es),
        deepest_apart(t, es),
        1 <= j < es.len(),
        1 <= k < es.len(),
        forall|i: int| 0 <= i < es.len() ==> (#[trigger] es[i]).0 <= es[j].0,
        es[k].0 == es[j].0,
        es[j].1 == es[k].1,
        es[j].2 != es[k].2,
    ensures
        t.node_state(es[j].2).center.x != t.node_state(es[k].2).center.x,
{
    assert(hangs(es, j));
    assert(siblings_apart(t, es, es[j].0 as int));
}

/// Whether, in the tree picture `t`, each node reached by the search `es` from `root` stands
/// on the row of its level: 60 below the root per level.
pub open spec fn rows_by_level<E: LayoutEngine>(t: Graph<E>, es: Seq<(i32, char, char)>, root: char) -> bool {
    forall|j: int| 1 <= j < es.len() ==> t.node_state((#[trigger] es[j]).2).center.y == level_y(t.node_state(root).center.y, es[j].0 as int)
}

/// A layout that keeps frozen nodes where they are keeps the children of one node apart.
proof fn lemma_apart_laid_out<E: LayoutEngine>(t1: Graph<E>, t2: Graph<E>, es: Seq<(i32, char, char)>, s: int)
    requires
        siblings_apart(t1, es, s),
        t2.node_looks_kept_but_layout(&t1, None),
        forall|j: int| 0 <= j < es.len() ==> t2.picture().node_map()@.contains_key(#[trigger] es[j].2),
    ensures
        siblings_apart(t2, es, s),
{
    let ls = level_nodes(es, s);
    assert forall|j: int| 0 <= j < es.len() && (#[trigger] es[j]).0 == s && ls.contains(es[j].1)
        implies t2.node_state(es[j].2).center == t1.node_state(es[j].2).center && t2.node_state(es[j].2).center_freezed by {
        assert(t2.picture().node_map()@.contains_key(es[j].2));
    }
    assert forall|j: int, k: int| 0 <= j < es.len() && 0 <= k < es.len() && (#[trigger] es[j]).0 == s && (#[trigger] es[k]).0 == s
        && ls.contains(es[j].1) && es[j].1 == es[k].1 && es[j].2 != es[k].2
        implies t2.node_state(es[j].2).center.x != t2.node_state(es[k].2).center.x by {
        assert(t2.node_state(es[j].2).center == t1.node_state(es[j].2).center);
        assert(t2.node_state(es[k].2).center == t1.node_state(es[k].2).center);
    }
}

/// Where the `q`-th child of a row started at `x0` stands: 60 further along x for each child
/// before it, wrapping as an `i32`.
pub open spec fn sibling_x(x0: int, q: int) -> int {
    if x0 + 60 * q > i32::MAX {
        x0 + 60 * q - 0x1_0000_0000
    } else {
        x0 + 60 * q
    }
}

/// Two different children of one row stand at different x coordinates.
proof fn lemma_siblings_distinct(x0: int, a: int, b: int)
    requires
        i32::MIN <= x0 <= i32::MAX,
        0 <= a <= 0x110000,
        0 <= b <= 0x110000,
        a != b,
    ensures
        sibling_x(x0, a) != sibling_x(x0, b),
{
}

/// What stays when every node of the entries at level `s` under `ps`, other than `m`, keeps
/// its center and frozen flag, and no such entry reaches `m`.
proof fn lemma_apart_kept<E: LayoutEngine>(t1: Graph<E>, t2: Graph<E>, es: Seq<(i32, char, char)>, s: int, ps: Seq<char>, m: char)
    requires
        apart_under(t1, es, s, ps),
        frozen_under(t1, es, s, ps),
        forall|j: int| 0 <= j < es.len() ==> t1.adj().contains_key(#[trigger] es[j].2),
        t2.adj() == t1.adj(),
        forall|k: char| #[trigger] t1.adj().contains_key(k) && k != m
            ==> t2.node_state(k).center == t1.node_state(k).center
            && t2.node_state(k).center_freezed == t1.node_state(k).center_freezed,
        forall|j: int| 0 <= j < es.len() && (#[trigger] es[j]).0 == s && ps.contains(es[j].1) ==> es[j].2 != m,
    ensures
        apart_under(t2, es, s, ps),
        frozen_under(t2, es, s, ps),
{
    assert forall|j: int, k: int| 0 <= j < es.len() && 0 <= k < es.len() && (#[trigger] es[j]).0 == s && (#[trigger] es[k]).0 == s
        && ps.contains(es[j].1) && es[j].1 == es[k].1 && es[j].2 != es[k].2
        implies t2.node_state(es[j].2).center.x != t2.node_state(es[k].2).center.x by {
        assert(t1.adj().contains_key(es[j].2));
        assert(t1.adj().contains_key(es[k].2));
    }
    assert forall|j: int| 0 <= j < es.len() && (#[trigger] es[j]).0 == s && ps.contains(es[j].1)
        implies t2.node_state(es[j].2).center_freezed by {
        assert(t1.adj().contains_key(es[j].2));
    }
}

/// The nodes reached from one node at one level are distinct, when no node is reached twice.
proof fn lemma_children_distinct(entries: Seq<(i32, char, char)>, s: int, parent: char)
    requires
        distinct_nodes(entries),
    ensures
        children_of(entries, s, parent).no_duplicates(),
    decreases entries.len(),
{
    if entries.len() > 0 {
        let init = entries.drop_last();
        assert(distinct_nodes(init)) by {
            assert forall|a: int, b: int| 0 <= a < b < init.len() implies (#[trigger] init[a]).2 != (#[trigger] init[b]).2 by {
                assert(init[a] == entries[a] && init[b] == entries[b]);
            }
        }
        lemma_children_distinct(init, s, parent);
        let before = children_of(init, s, parent);
        let e = entries.last();
        if e.0 == s && e.1 == parent {
            assert(!before.contains(e.2)) by {
                if before.contains(e.2) {
                    lemma_child_entry(init, s, parent, e.2);
                    let j = choose|j: int| 0 <= j < init.len() && (#[trigger] init[j]).0 == s && init[j].1 == parent && init[j].2 == e.2;
                    assert(entries[j] == init[j]);
                    assert(entries[entries.len() - 1] == e);
                }
            }
        }
    }
}

/// Whether no two entries reach the same node.
pub open spec fn distinct_nodes(entries: Seq<(i32, char, char)>) -> bool {
    forall|a: int, b: int| 0 <= a < b < entries.len() ==> (#[trigger] entries[a]).2 != (#[trigger] entries[b]).2
}

/// The sum of the x coordinates of `ns` only depends on where `ns` stand.
proof fn lemma_x_sum_same(r1: Renderer, r2: Renderer, ns: Seq<char>)
    requires
        forall|i: int| 0 <= i < ns.len() ==> r1.node_map()@[#[trigger] ns[i]]@.center.x == r2.node_map()@[ns[i]]@.center.x,
    ensures
        x_sum(r1, ns) == x_sum(r2, ns),
    decreases ns.len(),
{
    if ns.len() > 0 {
        let init = ns.drop_last();
        assert forall|i: int| 0 <= i < init.len() implies r1.node_map()@[#[trigger] init[i]]@.center.x == r2.node_map()@[init[i]]@.center.x by {
            assert(init[i] == ns[i]);
        }
        lemma_x_sum_same(r1, r2, init);
        assert(ns.last() == ns[ns.len() - 1]);
    }
}

/// Whether a parent stands above the middle of its children only depends on where the parent
/// and its children stand.
proof fn lemma_centered_same(r1: Renderer, r2: Renderer, entries: Seq<(i32, char, char)>, s: int, parent: char)
    requires
        centered(r1, entries, s, parent),
        r2.node_map()@[parent]@.center == r1.node_map()@[parent]@.center,
        forall|c: char| #[trigger] children_of(entries, s, parent).contains(c) ==> r2.node_map()@[c]@.center == r1.node_map()@[c]@.center,
    ensures
        centered(r2, entries, s, parent),
{
    let cs = children_of(entries, s, parent);
    assert forall|i: int| 0 <= i < cs.len() implies r1.node_map()@[#[trigger] cs[i]]@.center.x == r2.node_map()@[cs[i]]@.center.x by {
        assert(cs.contains(cs[i]));
    }
    lemma_x_sum_same(r1, r2, cs);
}

/// A node reached at level `lm` is none of the children of level `s` of any parent, when
/// `lm != s` and no two entries reach the same node.
proof fn lemma_not_child(entries: Seq<(i32, char, char)>, s: int, parent: char, m: char, lm: int)
    requires
        distinct_nodes(entries),
        exists|j: int| 0 <= j < entries.len() && (#[trigger] entries[j]).0 == lm && entries[j].2 == m,
        lm != s,
    ensures
        forall|c: char| #[trigger] children_of(entries, s, parent).contains(c) ==> c != m,
{
    let jm = choose|j: int| 0 <= j < entries.len() && (#[trigger] entries[j]).0 == lm && entries[j].2 == m;
    assert forall|c: char| #[trigger] children_of(entries, s, parent).contains(c) implies c != m by {
        lemma_child_entry(entries, s, parent, c);
        let jc = choose|j: int| 0 <= j < entries.len() && (#[trigger] entries[j]).0 == s && entries[j].1 == parent && entries[j].2 == c;
        if c == m {
            if jc < jm {
                assert(entries[jc].2 != entries[jm].2);
            } else if jm < jc {
                assert(entries[jm].2 != entries[jc].2);
            }
        }
    }
}

/// A node reached at level `lm` is none of the nodes of level `s - 1`, when `lm != s - 1` and no
/// two entries reach the same node.
proof fn lemma_not_level_node(entries: Seq<(i32, char, char)>, s: int, n: char, m: char, lm: int)
    requires
        distinct_nodes(entries),
        level_nodes(entries, s).contains(n),
        exists|j: int| 0 <= j < entries.len() && (#[trigger] entries[j]).0 == lm && entries[j].2 == m,
        lm != s - 1,
    ensures
        n != m,
{
    let jm = choose|j: int| 0 <= j < entries.len() && (#[trigger] entries[j]).0 == lm && entries[j].2 == m;
    lemma_level_entry(entries, s, n);
    let jn = choose|j: int| 0 <= j < entries.len() && (#[trigger] entries[j]).0 == s - 1 && entries[j].2 == n;
    if n == m {
        if jn < jm {
            assert(entries[jn].2 != entries[jm].2);
        } else if jm < jn {
            assert(entries[jm].2 != entries[jn].2);
        }
    }
}

/// A node reached at level `s - 1` is a node of level `s - 1` as `level_nodes` lists them.
proof fn lemma_entry_level(entries: Seq<(i32, char, char)>, j: int, s: int)
    requires
        0 <= j < entries.len(),
        entries[j].0 == s - 1,
    ensures
        level_nodes(entries, s).contains(entries[j].2),
    decreases entries.len(),
{
    let init = entries.drop_last();
    let before = level_nodes(init, s);
    if j < entries.len() - 1 {
        assert(init[j] == entries[j]);
        lemma_entry_level(init, j, s);
        if before.contains(entries[j].2) {
            let q = before.index_of(entries[j].2);
            let e = entries.last();
            if e.0 == s - 1 && !before.contains(e.2) {
                assert(before.push(e.2)[q] == entries[j].2);
            }
        }
    } else {
        let e = entries.last();
        assert(e == entries[j]);
        if before.contains(e.2) {
        } else {
            assert(before.push(e.2)[before.len() as int] == e.2);
        }
    }
}

/// The nodes of a level are listed once each.
proof fn lemma_level_nodes_distinct(entries: Seq<(i32, char, char)>, s: int)
    ensures
        level_nodes(entries, s).no_duplicates(),
    decreases entries.len(),
{
    if entries.len() > 0 {
        let init = entries.drop_last();
        lemma_level_nodes_distinct(init, s);
        let before = level_nodes(init, s);
        let e = entries.last();
        if e.0 == s - 1 && !before.contains(e.2) {
            let ns = before.push(e.2);
            assert forall|a: int, b: int| 0 <= a < b < ns.len() implies ns[a] != ns[b] by {
                if b == before.len() {
                    assert(ns[a] == before[a]);
                    assert(before.contains(before[a]));
                } else {
                    assert(ns[a] == before[a]);
                    assert(ns[b] == before[b]);
                }
            }
        }
    }
}

/// A node listed by `children_of` is reached by an entry of that level from that parent.
proof fn lemma_child_entry(entries: Seq<(i32, char, char)>, s: int, parent: char, c: char)
    requires
        children_of(entries, s, parent).contains(c),
    ensures
        exists|j: int| 0 <= j < entries.len() && (#[trigger] entries[j]).0 == s && entries[j].1 == parent && entries[j].2 == c,
    decreases entries.len(),
{
    let init = entries.drop_last();
    let before = children_of(init, s, parent);
    let last = entries.len() - 1;
    if before.contains(c) {
        lemma_child_entry(init, s, parent, c);
        let j = choose|j: int| 0 <= j < init.len() && (#[trigger] init[j]).0 == s && init[j].1 == parent && init[j].2 == c;
        assert(entries[j] == init[j]);
    } else {
        let e = entries.last();
        let cs = children_of(entries, s, parent);
        let k = cs.index_of(c);
        assert(cs[k] == c);
        assert(e.0 == s && e.1 == parent);
        assert(k == before.len());
        assert(entries[last] == e);
    }
}

/// The node of each entry is listed by `children_of` for the level and parent of the entry.
proof fn lemma_entry_child(entries: Seq<(i32, char, char)>, j: int)
    requires
        0 <= j < entries.len(),
    ensures
        children_of(entries, entries[j].0 as int, entries[j].1).contains(entries[j].2),
    decreases entries.len(),
{
    let s = entries[j].0 as int;
    let parent = entries[j].1;
    let init = entries.drop_last();
    let before = children_of(init, s, parent);
    let cs = children_of(entries, s, parent);
    if j < entries.len() - 1 {
        lemma_entry_child(init, j);
        assert(init[j] == entries[j]);
        let k = before.index_of(entries[j].2);
        assert(before[k] == entries[j].2);
        assert(cs[k] == entries[j].2);
    } else {
        assert(entries.last() == entries[j]);
        assert(cs[before.len() as int] == entries[j].2);
    }
}

/// A node listed by `level_nodes` for level `s` is reached by an entry of level `s - 1`.
proof fn lemma_level_entry(entries: Seq<(i32, char, char)>, s: int, n: char)
    requires
        level_nodes(entries, s).contains(n),
    ensures
        exists|j: int| 0 <= j < entries.len() && (#[trigger] entries[j]).0 == s - 1 && entries[j].2 == n,
    decreases entries.len(),
{
    let init = entries.drop_last();
    let before = level_nodes(init, s);
    if before.contains(n) {
        lemma_level_entry(init, s, n);
        let j = choose|j: int| 0 <= j < init.len() && (#[trigger] init[j]).0 == s - 1 && init[j].2 == n;
        assert(entries[j] == init[j]);
    } else {
        let ns = level_nodes(entries, s);
        let k = ns.index_of(n);
        assert(ns[k] == n);
        assert(k == before.len());
        assert(entries[entries.len() - 1] == entries.last());
    }
}

/// The nodes reached at level `s - 1`, in order: the parents of the nodes of level `s`.
fn parents_of_level(entries: &Vec<(i32, char, char)>, s: i32, Ghost(dom): Ghost<Set<char>>) -> (v: Vec<char>)
    requires
        forall|j: int| 0 <= j < entries@.len() ==> dom.contains(#[trigger] entries@[j].2),
    ensures
        v@ == level_nodes(entries@, s as int),
        forall|j: int| 0 <= j < v@.len() ==> dom.contains(#[trigger] v@[j]),
{
    let mut v: Vec<char> = Vec::new();
    let mut i: usize = 0;
    assert(entries@.take(0) =~= Seq::<(i32, char, char)>::empty());
    while i < entries.len()
        invariant
            i <= entries@.len(),
            v@ == level_nodes(entries@.take(i as int), s as int),
            forall|j: int| 0 <= j < entries@.len() ==> dom.contains(#[trigger] entries@[j].2),
            forall|j: int| 0 <= j < v@.len() ==> dom.contains(#[trigger] v@[j]),
        decreases entries@.len() - i,
    {
        let (level, _, child) = entries[i];
        assert(entries@.take(i + 1).drop_last() =~= entries@.take(i as int));
        assert(entries@.take(i + 1).last() == entries@[i as int]);
        if level as i64 == s as i64 - 1 && !holds(&v, child) {
            assert(dom.contains(entries@[i as int].2));
            v.push(child);
        }
        i = i + 1;
    }
    assert(entries@.take(i as int) =~= entries@);
    v
}

/// The nodes reached at level `s` from `parent`, in order.
fn children_at(entries: &Vec<(i32, char, char)>, s: i32, parent: char, Ghost(dom): Ghost<Set<char>>) -> (v: Vec<char>)
    requires
        forall|j: int| 0 <= j < entries@.len() ==> dom.contains(#[trigger] entries@[j].2),
    ensures
        v@ == children_of(entries@, s as int, parent),
        forall|j: int| 0 <= j < v@.len() ==> dom.contains(#[trigger] v@[j]),
        v@.len() <= entries@.len(),
{
    let mut v: Vec<char> = Vec::new();
    let mut i: usize = 0;
    assert(entries@.take(0) =~= Seq::<(i32, char, char)>::empty());
    while i < entries.len()
        invariant
            i <= entries@.len(),
            v@.len() <= i,
            v@ == children_of(entries@.take(i as int), s as int, parent),
            forall|j: int| 0 <= j < entries@.len() ==> dom.contains(#[trigger] entries@[j].2),
            forall|j: int| 0 <= j < v@.len() ==> dom.contains(#[trigger] v@[j]),
        decreases entries@.len() - i,
    {
        let (level, p, child) = entries[i];
        assert(entries@.take(i + 1).drop_last() =~= entries@.take(i as int));
        assert(entries@.take(i + 1).last() == entries@[i as int]);
        if level == s && p == parent {
            assert(dom.contains(entries@[i as int].2));
            v.push(child);
        }
        i = i + 1;
    }
    assert(entries@.take(i as int) =~= entries@);
    v
}

impl Tree {
    /// Places the nodes level after level under the root, 60 apart: first each node under its
    /// parent, then (from the deepest level up) each parent above the middle of its children.
    fn arrange<E: LayoutEngine>(tree: &mut Graph<E>, root: char, entries: &Vec<(i32, char, char)>)
        requires
            old(tree).wf(),
            !old(tree).is_paused(),
            old(tree).adj().contains_key(root),
            forall|j: int| 0 <= j < entries@.len() ==> old(tree).adj().contains_key(#[trigger] entries@[j].2),
            forall|j: int| 0 <= j < entries@.len() ==> 0 <= (#[trigger] entries@[j]).0 < 0x110000,
            entries@.len() <= 0x110000,
            entries@.len() > 0,
            entries@[0].0 == 0,
            entries@[0].2 == root,
            forall|a: int, b: int| 0 <= a < b < entries@.len() ==> (#[trigger] entries@[a]).2 != (#[trigger] entries@[b]).2,
        ensures
            final(tree).wf(),
            !final(tree).is_paused(),
            final(tree).adj() == old(tree).adj(),
            final(tree).node_state(root).center.y == old(tree).node_state(root).center.y,
            forall|j: int| 0 <= j < entries@.len() && #[trigger] hangs(entries@, j)
                ==> final(tree).node_state(entries@[j].2).center.y == level_y(old(tree).node_state(root).center.y, entries@[j].0 as int),
            forall|s: int, q: int| 1 <= s && 0 <= q < level_nodes(entries@, s).len()
                ==> #[trigger] centered(final(tree).picture(), entries@, s, level_nodes(entries@, s)[q]),
            forall|s: int| (forall|j: int| 0 <= j < entries@.len() ==> (#[trigger] entries@[j]).0 <= s)
                ==> #[trigger] siblings_apart(*final(tree), entries@, s),
    {
        let ghost adj = tree.adj();
        let ghost dom = adj.dom();
        let ghost es = entries@;
        proof {
            tree.lemma_running();
        }
        tree.pause();
        let (x_r, y_r, _) = tree.node_position(root);
        let d: i32 = 60;
        let mut max_step: i32 = 0;
        let mut i: usize = 0;
        while i < entries.len()
            invariant
                i <= entries@.len(),
                0 <= max_step < 0x110000,
                forall|j: int| 0 <= j < entries@.len() ==> 0 <= (#[trigger] entries@[j]).0 < 0x110000,
                forall|j: int| 0 <= j < i ==> (#[trigger] entries@[j]).0 <= max_step,
                max_step == 0 || exists|j: int| 0 <= j < i && (#[trigger] entries@[j]).0 == max_step,
            decreases entries@.len() - i,
        {
            if entries[i].0 > max_step {
                max_step = entries[i].0;
            }
            i = i + 1;
        }
        let mut step: i32 = 1;
        while step <= max_step
            invariant
                tree.wf(),
                tree.is_paused(),
                !tree.layout_pending(),
                tree.adj() == adj,
                dom == adj.dom(),
                es == entries@,
                forall|j: int| 0 <= j < entries@.len() ==> dom.contains(#[trigger] entries@[j].2),
                entries@.len() <= 0x110000,
                1 <= step <= max_step + 1,
                max_step < 0x110000,
                d == 60,
                entries@.len() > 0,
                entries@[0].0 == 0,
                entries@[0].2 == root,
                forall|a: int, b: int| 0 <= a < b < entries@.len() ==> (#[trigger] entries@[a]).2 != (#[trigger] entries@[b]).2,
                tree.node_state(root).center.y == y_r,
                forall|j: int| 0 <= j < entries@.len() && (#[trigger] hangs(entries@, j)) && entries@[j].0 < step
                    ==> tree.node_state(entries@[j].2).center.y == level_y(y_r, entries@[j].0 as int),
                forall|s: int| 1 <= s < step ==> #[trigger] siblings_apart(*tree, es, s),
                forall|j: int| 0 <= j < entries@.len() ==> 0 <= (#[trigger] entries@[j]).0 < 0x110000,
            decreases max_step + 1 - step,
        {
            if level_exists(entries, step) {
                let y_c = y_r.wrapping_add(step * d);
                assert(y_c == level_y(y_r, step as int));
                let mut x_c = x_r;
                let parents = parents_of_level(entries, step, Ghost(dom));
                proof {
                    lemma_level_nodes_distinct(es, step as int);
                    assert(parents@.take(0) =~= Seq::<char>::empty());
                }
                let mut p: usize = 0;
                while p < parents.len()
                    invariant
                        forall|s: int| 1 <= s < step ==> #[trigger] siblings_apart(*tree, es, s),
                        apart_under(*tree, es, step as int, parents@.take(p as int)),
                        frozen_under(*tree, es, step as int, parents@.take(p as int)),
                        parents@.no_duplicates(),
                        es == entries@,
                        entries@.len() <= 0x110000,
                        d == 60,
                        tree.wf(),
                        tree.is_paused(),
                        !tree.layout_pending(),
                        tree.adj() == adj,
                        dom == adj.dom(),
                        forall|j: int| 0 <= j < entries@.len() ==> dom.contains(#[trigger] entries@[j].2),
                        forall|j: int| 0 <= j < parents@.len() ==> dom.contains(#[trigger] parents@[j]),
                        parents@ == level_nodes(entries@, step as int),
                        p <= parents@.len(),
                        1 <= step,
                        y_c == level_y(y_r, step as int),
                        entries@[0].0 == 0,
                        entries@[0].2 == root,
                        forall|a: int, b: int| 0 <= a < b < entries@.len() ==> (#[trigger] entries@[a]).2 != (#[trigger] entries@[b]).2,
                        tree.node_state(root).center.y == y_r,
                        forall|j: int| 0 <= j < entries@.len() && (#[trigger] hangs(entries@, j)) && entries@[j].0 < step
                            ==> tree.node_state(entries@[j].2).center.y == level_y(y_r, entries@[j].0 as int),
                        forall|j: int, q: int| 0 <= j < entries@.len() && 0 <= q < p && (#[trigger] entries@[j]).0 == step
                            && entries@[j].1 == #[trigger] parents@[q] ==> tree.node_state(entries@[j].2).center.y == y_c,
                    decreases parents@.len() - p,
                {
                    let parent = parents[p];
                    assert(dom.contains(parents@[p as int]));
                    let childs = children_at(entries, step, parent, Ghost(dom));
                    if childs.len() > 0 {
                        let (x_p, _, _) = tree.node_position(parent);
                        if x_p > x_c {
                            x_c = x_p;
                        }
                        let ghost x0 = x_c as int;
                        proof {
                            lemma_children_distinct(es, step as int, parent);
                        }
                        let mut c: usize = 0;
                        while c < childs.len()
                            invariant
                                forall|s: int| 1 <= s < step ==> #[trigger] siblings_apart(*tree, es, s),
                                apart_under(*tree, es, step as int, parents@.take(p as int)),
                                frozen_under(*tree, es, step as int, parents@.take(p as int)),
                                parents@.no_duplicates(),
                                es == entries@,
                                entries@.len() <= 0x110000,
                                childs@.len() <= entries@.len(),
                                childs@.no_duplicates(),
                                i32::MIN <= x0 <= i32::MAX,
                                x_c as int == sibling_x(x0, c as int),
                                d == 60,
                                forall|q: int| 0 <= q < c ==> tree.node_state(#[trigger] childs@[q]).center.x == sibling_x(x0, q)
                                    && tree.node_state(childs@[q]).center_freezed,
                                tree.wf(),
                                tree.is_paused(),
                                !tree.layout_pending(),
                                tree.adj() == adj,
                                forall|j: int| 0 <= j < childs@.len() ==> adj.contains_key(#[trigger] childs@[j]),
                                forall|j: int| 0 <= j < entries@.len() ==> adj.contains_key(#[trigger] entries@[j].2),
                                childs@ == children_of(entries@, step as int, parent),
                                c <= childs@.len(),
                                1 <= step,
                                p < parents@.len(),
                                parent == parents@[p as int],
                                entries@[0].0 == 0,
                                entries@[0].2 == root,
                                forall|a: int, b: int| 0 <= a < b < entries@.len() ==> (#[trigger] entries@[a]).2 != (#[trigger] entries@[b]).2,
                                tree.node_state(root).center.y == y_r,
                                forall|j: int| 0 <= j < entries@.len() && (#[trigger] hangs(entries@, j)) && entries@[j].0 < step
                                    ==> tree.node_state(entries@[j].2).center.y == level_y(y_r, entries@[j].0 as int),
                                forall|j: int, q: int| 0 <= j < entries@.len() && 0 <= q < p && (#[trigger] entries@[j]).0 == step
                                    && entries@[j].1 == #[trigger] parents@[q] ==> tree.node_state(entries@[j].2).center.y == y_c,
                                forall|q: int| 0 <= q < c ==> tree.node_state(#[trigger] childs@[q]).center.y == y_c,
                            decreases childs@.len() - c,
                        {
                            let ghost prev = *tree;
                            let ghost m = childs@[c as int];
                            assert(adj.contains_key(m));
                            proof {
                                assert(childs@.contains(m));
                                lemma_child_entry(entries@, step as int, parent, m);
                            }
                            tree.move_node(childs[c], (x_c, y_c));
                            proof {
                                tree.lemma_others_stay(&prev, m);
                                let jm = choose|jm: int| 0 <= jm < entries@.len() && (#[trigger] entries@[jm]).0 == step
                                    && entries@[jm].1 == parent && entries@[jm].2 == m;
                                assert(m != root) by {
                                    if m == root {
                                        assert(entries@[0].2 == entries@[jm].2);
                                    }
                                }
                                assert forall|j: int| 0 <= j < entries@.len() && (#[trigger] hangs(entries@, j)) && entries@[j].0 < step
                                    implies tree.node_state(entries@[j].2).center.y == level_y(y_r, entries@[j].0 as int) by {
                                    if entries@[j].2 == m {
                                        if j < jm {
                                            assert(entries@[j].2 != entries@[jm].2);
                                        } else if jm < j {
                                            assert(entries@[jm].2 != entries@[j].2);
                                        }
                                    }
                                }
                                assert forall|j: int, q: int| 0 <= j < entries@.len() && 0 <= q < p && (#[trigger] entries@[j]).0 == step
                                    && entries@[j].1 == #[trigger] parents@[q] implies tree.node_state(entries@[j].2).center.y == y_c by {
                                    if entries@[j].2 != m {
                                        assert(prev.node_state(entries@[j].2).center.y == y_c);
                                    }
                                }
                                assert forall|q: int| 0 <= q < c + 1 implies tree.node_state(#[trigger] childs@[q]).center.y == y_c by {
                                    if childs@[q] != m {
                                        assert(prev.node_state(childs@[q]).center.y == y_c);
                                    }
                                }
                                assert forall|s: int| 1 <= s < step implies #[trigger] siblings_apart(*tree, es, s) by {
                                    let ls = level_nodes(es, s);
                                    assert forall|j: int| 0 <= j < es.len() && (#[trigger] es[j]).0 == s && ls.contains(es[j].1)
                                        implies es[j].2 != m by {
                                        if es[j].2 == m {
                                            if j < jm {
                                                assert(entries@[j].2 != entries@[jm].2);
                                            } else if jm < j {
                                                assert(entries@[jm].2 != entries@[j].2);
                                            }
                                        }
                                    }
                                    assert(siblings_apart(prev, es, s));
                                    lemma_apart_kept(prev, *tree, es, s, ls, m);
                                }
                                let tp = parents@.take(p as int);
                                assert forall|j: int| 0 <= j < es.len() && (#[trigger] es[j]).0 == step && tp.contains(es[j].1)
                                    implies es[j].2 != m by {
                                    if es[j].2 == m {
                                        if j < jm {
                                            assert(entries@[j].2 != entries@[jm].2);
                                        } else if jm < j {
                                            assert(entries@[jm].2 != entries@[j].2);
                                        }
                                        let qq = tp.index_of(es[j].1);
                                        assert(parents@[qq] == parent);
                                    }
                                }
                                lemma_apart_kept(prev, *tree, es, step as int, tp, m);
                                assert forall|q: int| 0 <= q < c + 1 implies tree.node_state(#[trigger] childs@[q]).center.x == sibling_x(x0, q)
                                    && tree.node_state(childs@[q]).center_freezed by {
                                    if q < c {
                                        assert(childs@[q] != m);
                                        assert(adj.contains_key(childs@[q]));
                                    }
                                }
                            }
                            x_c = x_c.wrapping_add(d);
                            assert(x_c as int == sibling_x(x0, c + 1));
                            c = c + 1;
                        }
                        proof {
                            let tp = parents@.take(p as int);
                            let tp1 = parents@.take(p + 1);
                            assert(tp1 =~= tp.push(parent));
                            assert forall|j: int| 0 <= j < es.len() && (#[trigger] es[j]).0 == step && tp1.contains(es[j].1)
                                implies tree.node_state(es[j].2).center_freezed by {
                                if !tp.contains(es[j].1) {
                                    lemma_entry_child(entries@, j);
                                    let k = childs@.index_of(es[j].2);
                                    assert(childs@[k] == es[j].2);
                                }
                            }
                            assert forall|j: int, k: int| 0 <= j < es.len() && 0 <= k < es.len() && (#[trigger] es[j]).0 == step && (#[trigger] es[k]).0 == step
                                && tp1.contains(es[j].1) && es[j].1 == es[k].1 && es[j].2 != es[k].2
                                implies tree.node_state(es[j].2).center.x != tree.node_state(es[k].2).center.x by {
                                if !tp.contains(es[j].1) {
                                    lemma_entry_child(entries@, j);
                                    lemma_entry_child(entries@, k);
                                    let qa = childs@.index_of(es[j].2);
                                    let qb = childs@.index_of(es[k].2);
                                    assert(childs@[qa] == es[j].2);
                                    assert(childs@[qb] == es[k].2);
                                    lemma_siblings_distinct(x0, qa, qb);
                                }
                            }
                        }
                    } else {
                        proof {
                            let tp = parents@.take(p as int);
                            let tp1 = parents@.take(p + 1);
                            assert(tp1 =~= tp.push(parent));
                            assert forall|j: int| 0 <= j < es.len() && (#[trigger] es[j]).0 == step && tp1.contains(es[j].1)
                                implies tp.contains(es[j].1) by {
                                if !tp.contains(es[j].1) {
                                    lemma_entry_child(entries@, j);
                                    assert(childs@.contains(es[j].2));
                                }
                            }
                        }
                    }
                    proof {
                        assert forall|j: int, q: int| 0 <= j < entries@.len() && 0 <= q < p + 1 && (#[trigger] entries@[j]).0 == step
                            && entries@[j].1 == #[trigger] parents@[q] implies tree.node_state(entries@[j].2).center.y == y_c by {
                            if q == p {
                                lemma_entry_child(entries@, j);
                                let k = childs@.index_of(entries@[j].2);
                                assert(childs@[k] == entries@[j].2);
                            }
                        }
                    }
                    p = p + 1;
                }
                proof {
                    assert forall|j: int| 0 <= j < entries@.len() && (#[trigger] hangs(entries@, j)) && entries@[j].0 < step + 1
                        implies tree.node_state(entries@[j].2).center.y == level_y(y_r, entries@[j].0 as int) by {
                        if entries@[j].0 == step {
                            let q = parents@.index_of(entries@[j].1);
                            assert(parents@[q] == entries@[j].1);
                        }
                    }
                    assert(parents@.take(parents@.len() as int) =~= parents@);
                    assert(siblings_apart(*tree, es, step as int));
                }
            } else {
                assert forall|j: int| 0 <= j < entries@.len() && (#[trigger] hangs(entries@, j)) && entries@[j].0 < step + 1
                    implies tree.node_state(entries@[j].2).center.y == level_y(y_r, entries@[j].0 as int) by {
                    assert(entries@[j].0 != step);
                }
                assert(siblings_apart(*tree, es, step as int));
            }
            step = step + 1;
        }
        let ghost laid = *tree;
        proof {
            if max_step < 1 {
                let ls = level_nodes(es, max_step as int);
                assert forall|j: int| 0 <= j < es.len() && (#[trigger] es[j]).0 == max_step implies !ls.contains(es[j].1) by {
                    if ls.contains(es[j].1) {
                        lemma_level_entry(es, max_step as int, es[j].1);
                    }
                }
            }
            assert(siblings_apart(*tree, es, max_step as int));
            assert forall|s: int, q: int| max_step < s && 0 <= q < level_nodes(es, s).len()
                implies #[trigger] centered(tree.picture(), es, s, level_nodes(es, s)[q]) by {
                let cs = children_of(es, s, level_nodes(es, s)[q]);
                if cs.len() > 0 {
                    assert(cs.contains(cs[0]));
                    lemma_child_entry(es, s, level_nodes(es, s)[q], cs[0]);
                }
            }
        }
        let mut step: i32 = max_step;
        while step >= 1
            invariant
                tree.wf(),
                tree.is_paused(),
                !tree.layout_pending(),
                tree.adj() == adj,
                dom == adj.dom(),
                laid.adj() == adj,
                es == entries@,
                forall|j: int| 0 <= j < entries@.len() ==> dom.contains(#[trigger] entries@[j].2),
                entries@.len() <= 0x110000,
                0 <= step <= max_step,
                max_step < 0x110000,
                forall|j: int| 0 <= j < entries@.len() ==> (#[trigger] entries@[j]).0 <= max_step,
                distinct_nodes(es),
                forall|n: char| #[trigger] dom.contains(n) ==> tree.node_state(n).center.y == laid.node_state(n).center.y,
                forall|s: int, q: int| step < s && 0 <= q < level_nodes(es, s).len()
                    ==> #[trigger] centered(tree.picture(), es, s, level_nodes(es, s)[q]),
                siblings_apart(*tree, es, max_step as int),
            decreases step,
        {
            if level_exists(entries, step) {
                let mut x_prec: i32 = 0;
                let parents = parents_of_level(entries, step, Ghost(dom));
                proof {
                    lemma_level_nodes_distinct(es, step as int);
                }
                let mut p: usize = 0;
                while p < parents.len()
                    invariant
                        tree.wf(),
                        tree.is_paused(),
                        !tree.layout_pending(),
                        tree.adj() == adj,
                        dom == adj.dom(),
                        es == entries@,
                        forall|j: int| 0 <= j < entries@.len() ==> dom.contains(#[trigger] entries@[j].2),
                        forall|j: int| 0 <= j < parents@.len() ==> dom.contains(#[trigger] parents@[j]),
                        entries@.len() <= 0x110000,
                        parents@ == level_nodes(es, step as int),
                        parents@.no_duplicates(),
                        p <= parents@.len(),
                        1 <= step,
                        distinct_nodes(es),
                        forall|n: char| #[trigger] dom.contains(n) ==> tree.node_state(n).center.y == laid.node_state(n).center.y,
                        forall|s: int, q: int| step < s && 0 <= q < level_nodes(es, s).len()
                            ==> #[trigger] centered(tree.picture(), es, s, level_nodes(es, s)[q]),
                        forall|q: int| 0 <= q < p ==> #[trigger] centered(tree.picture(), es, step as int, parents@[q]),
                        siblings_apart(*tree, es, max_step as int),
                        step <= max_step,
                    decreases parents@.len() - p,
                {
                    let parent = parents[p];
                    assert(dom.contains(parents@[p as int]));
                    let (x_p0, y_p, _) = tree.node_position(parent);
                    let mut x_p = x_p0;
                    let childs = children_at(entries, step, parent, Ghost(dom));
                    if childs.len() > 0 {
                        x_p = 0;
                        let mut c: usize = 0;
                        assert(childs@.take(0) =~= Seq::<char>::empty());
                        while c < childs.len()
                            invariant
                                tree.wf(),
                                tree.adj() == adj,
                                forall|j: int| 0 <= j < childs@.len() ==> adj.contains_key(#[trigger] childs@[j]),
                                c <= childs@.len(),
                                x_p == x_sum(tree.picture(), childs@.take(c as int)),
                            decreases childs@.len() - c,
                        {
                            assert(adj.contains_key(childs@[c as int]));
                            let (x_child, _, _) = tree.node_position(childs[c]);
                            assert(childs@.take(c + 1).drop_last() =~= childs@.take(c as int));
                            assert(childs@.take(c + 1).last() == childs@[c as int]);
                            x_p = x_p.wrapping_add(x_child);
                            c = c + 1;
                        }
                        assert(childs@.take(c as int) =~= childs@);
                        x_p = x_p / (childs.len() as i32);
                    } else {
                        let right = x_prec.wrapping_add(d);
                        if right > x_p {
                            x_p = right;
                        }
                    }
                    let ghost prev = *tree;
                    tree.move_node(parent, (x_p, y_p));
                    proof {
                        tree.lemma_others_stay(&prev, parent);
                        assert(siblings_apart(*tree, es, max_step as int)) by {
                            let ls = level_nodes(es, max_step as int);
                            assert(parents@.contains(parent));
                            lemma_level_entry(es, step as int, parent);
                            let jp = choose|jp: int| 0 <= jp < es.len() && (#[trigger] es[jp]).0 == step - 1 && es[jp].2 == parent;
                            assert forall|j: int| 0 <= j < es.len() && (#[trigger] es[j]).0 == max_step && ls.contains(es[j].1)
                                implies es[j].2 != parent by {
                                if es[j].2 == parent {
                                    if j < jp {
                                        assert(es[j].2 != es[jp].2);
                                    } else if jp < j {
                                        assert(es[jp].2 != es[j].2);
                                    }
                                }
                            }
                            lemma_apart_kept(prev, *tree, es, max_step as int, ls, parent);
                        }
                        assert forall|n: char| #[trigger] dom.contains(n) implies tree.node_state(n).center.y == laid.node_state(n).center.y by {
                            if n != parent {
                                assert(adj.contains_key(n));
                            }
                        }
                        assert(parents@.contains(parent));
                        lemma_level_entry(es, step as int, parent);
                        let lm = step - 1;
                        assert forall|c: char| #[trigger] children_of(es, step as int, parent).contains(c)
                            implies tree.picture().node_map()@[c]@.center == prev.picture().node_map()@[c]@.center by {
                            lemma_not_child(es, step as int, parent, parent, lm);
                            lemma_child_entry(es, step as int, parent, c);
                        }
                        assert(centered(tree.picture(), es, step as int, parent)) by {
                            let cs = children_of(es, step as int, parent);
                            assert forall|i: int| 0 <= i < cs.len() implies prev.picture().node_map()@[#[trigger] cs[i]]@.center.x
                                == tree.picture().node_map()@[cs[i]]@.center.x by {
                                assert(cs.contains(cs[i]));
                            }
                            lemma_x_sum_same(prev.picture(), tree.picture(), cs);
                        }
                        assert forall|s: int, q: int| step < s && 0 <= q < level_nodes(es, s).len()
                            implies #[trigger] centered(tree.picture(), es, s, level_nodes(es, s)[q]) by {
                            let n = level_nodes(es, s)[q];
                            assert(centered(prev.picture(), es, s, n));
                            assert(level_nodes(es, s).contains(n));
                            lemma_not_level_node(es, s, n, parent, lm);
                            lemma_not_child(es, s, n, parent, lm);
                            lemma_level_entry(es, s, n);
                            assert forall|c: char| #[trigger] children_of(es, s, n).contains(c)
                                implies tree.picture().node_map()@[c]@.center == prev.picture().node_map()@[c]@.center by {
                                lemma_child_entry(es, s, n, c);
                            }
                            lemma_centered_same(prev.picture(), tree.picture(), es, s, n);
                        }
                        assert forall|q: int| 0 <= q < p + 1 implies #[trigger] centered(tree.picture(), es, step as int, parents@[q]) by {
                            if q < p {
                                let n = parents@[q];
                                assert(centered(prev.picture(), es, step as int, n));
                                assert(n != parent);
                                assert(parents@.contains(n));
                                lemma_not_child(es, step as int, n, parent, lm);
                                lemma_level_entry(es, step as int, n);
                                assert forall|c: char| #[trigger] children_of(es, step as int, n).contains(c)
                                    implies tree.picture().node_map()@[c]@.center == prev.picture().node_map()@[c]@.center by {
                                    lemma_child_entry(es, step as int, n, c);
                                }
                                lemma_centered_same(prev.picture(), tree.picture(), es, step as int, n);
                            }
                        }
                    }
                    x_prec = x_p;
                    p = p + 1;
                }
                proof {
                    assert forall|s: int, q: int| step - 1 < s && 0 <= q < level_nodes(es, s).len()
                        implies #[trigger] centered(tree.picture(), es, s, level_nodes(es, s)[q]) by {
                        if s == step {
                            assert(level_nodes(es, s)[q] == parents@[q]);
                        }
                    }
                }
            } else {
                proof {
                    assert forall|s: int, q: int| step - 1 < s && 0 <= q < level_nodes(es, s).len()
                        implies #[trigger] centered(tree.picture(), es, s, level_nodes(es, s)[q]) by {
                        if s == step {
                            let cs = children_of(es, s, level_nodes(es, s)[q]);
                            if cs.len() > 0 {
                                assert(cs.contains(cs[0]));
                                lemma_child_entry(es, s, level_nodes(es, s)[q], cs[0]);
                            }
                        }
                    }
                }
            }
            step = step - 1;
        }
        let ghost pre = *tree;
        tree.resume();
        proof {
            assert(siblings_apart(*tree, es, max_step as int)) by {
                let ls = level_nodes(es, max_step as int);
                assert forall|k: char| #[trigger] pre.adj().contains_key(k) && k != root
                    implies tree.node_state(k).center == pre.node_state(k).center
                    && tree.node_state(k).center_freezed == pre.node_state(k).center_freezed by {
                    assert(tree.picture().node_map()@.contains_key(k));
                }
                if max_step >= 1 {
                    assert forall|j: int| 0 <= j < es.len() && (#[trigger] es[j]).0 == max_step && ls.contains(es[j].1)
                        implies es[j].2 != root by {
                        if es[j].2 == root && j > 0 {
                            assert(es[0].2 != es[j].2);
                        }
                    }
                } else {
                    assert forall|j: int| 0 <= j < es.len() && (#[trigger] es[j]).0 == max_step && ls.contains(es[j].1)
                        implies es[j].2 != root by {
                        lemma_level_entry(es, max_step as int, es[j].1);
                    }
                }
                lemma_apart_kept(pre, *tree, es, max_step as int, ls, root);
            }
            assert forall|s: int| (forall|j: int| 0 <= j < entries@.len() ==> (#[trigger] entries@[j]).0 <= s)
                implies #[trigger] siblings_apart(*tree, entries@, s) by {
                if s != max_step {
                    let ls = level_nodes(es, s);
                    assert forall|j: int| 0 <= j < es.len() implies (#[trigger] es[j]).0 != s by {
                        if es[j].0 == s {
                            if max_step == 0 {
                                assert(es[j].0 <= max_step);
                            } else {
                                let jm = choose|jm: int| 0 <= jm < entries@.len() && (#[trigger] entries@[jm]).0 == max_step;
                                assert(entries@[jm].0 <= s);
                                assert(es[j].0 <= max_step);
                            }
                        }
                    }
                }
            }
            assert forall|n: char| #[trigger] dom.contains(n) implies tree.node_state(n).center == pre.node_state(n).center by {
                assert(tree.picture().node_map()@.contains_key(n));
            }
            assert(dom.contains(root));
            assert forall|j: int| 0 <= j < entries@.len() && #[trigger] hangs(entries@, j)
                implies tree.node_state(entries@[j].2).center.y == level_y(y_r, entries@[j].0 as int) by {
                assert(dom.contains(entries@[j].2));
                assert(entries@[j].0 <= max_step);
            }
            assert forall|s: int, q: int| 1 <= s && 0 <= q < level_nodes(es, s).len()
                implies #[trigger] centered(tree.picture(), es, s, level_nodes(es, s)[q]) by {
                let n = level_nodes(es, s)[q];
                assert(level_nodes(es, s).contains(n));
                lemma_level_entry(es, s, n);
                assert forall|c: char| #[trigger] children_of(es, s, n).contains(c)
                    implies tree.picture().node_map()@[c]@.center == pre.picture().node_map()@[c]@.center by {
                    lemma_child_entry(es, s, n, c);
                }
                lemma_centered_same(pre.picture(), tree.picture(), es, s, n);
            }
        }
    }

    /// The breadth-first search tree from `root`, laid out as a tree; with `layout`, the links
    /// that the search deleted come back (both ways, of value 0).
    fn bfs<E: LayoutEngine>(g: &Graph<E>, root: char, layout: bool) -> (tree: Graph<E>)
        requires
            g.wf(),
            g.describable(),
            g.adj().contains_key(root),
            connected(g.adj()),
        ensures
            tree.wf(),
            !tree.is_paused(),
            tree.adj().dom() == g.adj().dom(),
            forall|x: char, y: char| #[trigger] has_link(tree.adj(), x, y) ==> has_link(undirected(g.adj()), x, y),
            layout ==> forall|x: char, y: char| #[trigger] has_link(undirected(g.adj()), x, y) ==> has_link(tree.adj(), x, y),
            !layout ==> sub_adjacency(tree.adj(), undirected(g.adj())),
            !layout ==> forall|x: char, y: char| #[trigger] has_link(tree.adj(), x, y) ==> has_link(tree.adj(), y, x),
            !layout ==> exists|order: Seq<char>, lv: Seq<int>| tree_order(tree.adj(), order) && order.len() > 0 && order[0] == root
                && #[trigger] leveled(undirected(g.adj()), tree.adj(), order, lv),
            exists|es: Seq<(i32, char, char)>| #[trigger] search_entries(undirected(g.adj()), root, es) && deepest_apart(tree, es)
                && (!layout ==> rows_by_level(tree, es, root)),
    {
        let (_, components) = Connectivity::components(g);
        proof {
            lemma_one_component(g.adj(), comps_view(components@), root);
        }
        let mut tree = undirected_copy(g);
        let ghost u = tree.adj();
        assert(u == undirected(g.adj()));
        assert forall|y: char| #[trigger] u.contains_key(y) implies crate::algo::connectivity::reachable(u, root, y) by {
            assert(g.adj().contains_key(y));
        }
        let t = Self::traverse(&mut tree, root);
        proof {
            assert forall|a: int, b: int| 0 <= a < b < t.entries@.len() implies (#[trigger] t.entries@[a]).2 != (#[trigger] t.entries@[b]).2 by {
                assert(reached(t.entries@)[a] == t.entries@[a].2);
                assert(reached(t.entries@)[b] == t.entries@[b].2);
            }
        }
        proof {
            assert forall|x: char, y: char| #[trigger] has_link(tree.adj(), x, y) implies has_link(tree.adj(), y, x) by {
                assert(has_link(u, y, x));
                if !has_link(tree.adj(), y, x) {
                    if t.deleted_links@.contains((y, x)) {
                        let q = t.deleted_links@.index_of((y, x));
                        assert(!joined(tree.adj(), t.deleted_links@[q].0, t.deleted_links@[q].1));
                    } else {
                        let q = t.deleted_links@.index_of((x, y));
                        assert(!joined(tree.adj(), t.deleted_links@[q].0, t.deleted_links@[q].1));
                    }
                }
            }
        }
        Self::arrange(&mut tree, root, &t.entries);
        assert(tree_order(tree.adj(), reached(t.entries@)) && reached(t.entries@)[0] == root
            && leveled(undirected(g.adj()), tree.adj(), reached(t.entries@), levels(t.entries@)));
        let ghost es = t.entries@;
        proof {
            assert(distinct_nodes(es));
            assert forall|n: char| #[trigger] u.contains_key(n) <==> reached(es).contains(n) by {
                assert(tree.adj().contains_key(n) <==> reached(es).contains(n));
            }
            assert forall|j: int| 1 <= j < es.len() implies #[trigger] hangs(es, j) && has_link(u, es[j].1, es[j].2) by {
                assert(has_link(tree.adj(), es[j].1, es[j].2));
            }
            assert(search_entries(undirected(g.adj()), root, es));
            assert(deepest_apart(tree, es));
            assert forall|j: int| 1 <= j < es.len() implies tree.node_state((#[trigger] es[j]).2).center.y
                == level_y(tree.node_state(root).center.y, es[j].0 as int) by {
                assert(hangs(es, j));
            }
        }
        if layout {
            let mut i: usize = 0;
            while i < t.deleted_links.len()
                invariant
                    tree.wf(),
                    !tree.is_paused(),
                    tree.adj().dom() == u.dom(),
                    i <= t.deleted_links@.len(),
                    forall|x: char, y: char| #[trigger] has_link(tree.adj(), x, y) ==> has_link(u, x, y),
                    forall|x: char, y: char| #[trigger] has_link(u, x, y) ==> has_link(tree.adj(), x, y)
                        || exists|j: int| i <= j < t.deleted_links@.len() && ((#[trigger] t.deleted_links@[j]) == (x, y) || t.deleted_links@[j] == (y, x)),
                    forall|j: int| i <= j < t.deleted_links@.len() ==> !joined(tree.adj(), (#[trigger] t.deleted_links@[j]).0, t.deleted_links@[j].1)
                        && u.contains_key(t.deleted_links@[j].0) && u.contains_key(t.deleted_links@[j].1)
                        && t.deleted_links@[j].0 != t.deleted_links@[j].1,
                    forall|a: int, b: int| 0 <= a < b < t.deleted_links@.len() ==> ((#[trigger] t.deleted_links@[a]).0 != (#[trigger] t.deleted_links@[b]).0
                        || t.deleted_links@[a].1 != t.deleted_links@[b].1) && (t.deleted_links@[a].0 != t.deleted_links@[b].1
                        || t.deleted_links@[a].1 != t.deleted_links@[b].0),
                    forall|x: char, y: char| #[trigger] has_link(u, x, y) ==> has_link(u, y, x),
                    forall|j: int| 0 <= j < t.deleted_links@.len() ==> has_link(u, (#[trigger] t.deleted_links@[j]).0, t.deleted_links@[j].1),
                    deepest_apart(tree, es),
                    forall|j: int| 0 <= j < es.len() ==> u.contains_key(#[trigger] es[j].2),
                decreases t.deleted_links@.len() - i,
            {
                let (node_from, node_to) = t.deleted_links[i];
                let ghost before = tree.adj();
                let ghost tb = tree;
                tree.add_link(node_from, node_to, true, 0);
                proof {
                    tree.lemma_running();
                    assert forall|j: int| 0 <= j < es.len() implies tree.picture().node_map()@.contains_key(#[trigger] es[j].2) by {
                        assert(u.contains_key(es[j].2));
                    }
                    assert forall|s: int| (forall|j: int| 0 <= j < es.len() ==> (#[trigger] es[j]).0 <= s)
                        implies #[trigger] siblings_apart(tree, es, s) by {
                        lemma_apart_laid_out(tb, tree, es, s);
                    }
                    assert forall|j: int| i + 1 <= j < t.deleted_links@.len() implies !joined(tree.adj(), (#[trigger] t.deleted_links@[j]).0, t.deleted_links@[j].1) by {
                        assert(!joined(before, t.deleted_links@[j].0, t.deleted_links@[j].1));
                    }
                    assert forall|x: char, y: char| #[trigger] has_link(tree.adj(), x, y) implies has_link(u, x, y) by {
                        if !((x == node_from && y == node_to) || (x == node_to && y == node_from)) {
                            assert(has_link(before, x, y));
                        } else {
                            assert(has_link(u, node_from, node_to) || has_link(u, node_to, node_from));
                        }
                    }
                }
                i = i + 1;
            }
        }
        tree
    }

    /// Lays the graph out as a tree: the breadth-first search tree from `root` (the links
    /// that go one way made to go both ways), placed level after level, with the other links
    /// back. At the deepest level, the children of one node stand 60 apart, never on one
    /// point (`deepest_apart`).
    pub fn layout_as_tree<E: LayoutEngine>(g: &Graph<E>, root: char) -> (tree: Graph<E>)
        requires
            g.wf(),
            g.describable(),
            g.adj().contains_key(root),
            connected(g.adj()),
        ensures
            tree.wf(),
            tree.adj().dom() == g.adj().dom(),
            forall|x: char, y: char| #[trigger] has_link(tree.adj(), x, y) <==> has_link(undirected(g.adj()), x, y),
            exists|es: Seq<(i32, char, char)>| #[trigger] search_entries(undirected(g.adj()), root, es) && deepest_apart(tree, es),
    {
        Self::bfs(g, root, true)
    }

    /// Returns the breadth-first search tree from `root` (the links that go one way made to
    /// go both ways), placed level after level: a spanning tree in which each node is as many
    /// links away from the root as in the graph.
    pub fn bfs_tree<E: LayoutEngine>(g: &Graph<E>, root: char) -> (tree: Graph<E>)
        requires
            g.wf(),
            g.describable(),
            g.adj().contains_key(root),
            connected(g.adj()),
        ensures
            tree.wf(),
            tree.adj().dom() == g.adj().dom(),
            sub_adjacency(tree.adj(), undirected(g.adj())),
            forall|x: char, y: char| #[trigger] has_link(tree.adj(), x, y) ==> has_link(tree.adj(), y, x),
            exists|order: Seq<char>, lv: Seq<int>| tree_order(tree.adj(), order) && order.len() > 0 && order[0] == root
                && #[trigger] leveled(undirected(g.adj()), tree.adj(), order, lv),
            exists|es: Seq<(i32, char, char)>| #[trigger] search_entries(undirected(g.adj()), root, es) && deepest_apart(tree, es)
                && rows_by_level(tree, es, root),
    {
        Self::bfs(g, root, false)
    }
}


/// Whether two listed links join the same two nodes, one way or the other.
pub open spec fn same_pair(a: (char, char, i8), b: (char, char, i8)) -> bool {
    (a.0 == b.0 && a.1 == b.1) || (a.0 == b.1 && a.1 == b.0)
}

/// What holds along Prim's search over the undirected adjacency `u`: the graph keeps links of
/// `u` only, with their values, and every link with an end not yet visited; each waiting link
/// starts at a visited node, is still in the graph, and no two join the same nodes.
pub open spec fn prim_state(adj: Adjacency, u: Adjacency, visited: Seq<char>, links: Seq<(char, char, i8)>) -> bool {
    &&& sub_adjacency(adj, u)
    &&& forall|x: char, y: char| #[trigger] has_link(u, x, y) && !(visited.contains(x) && visited.contains(y)) ==> has_link(adj, x, y)
    &&& forall|j: int| 0 <= j < links.len() ==> visited.contains((#[trigger] links[j]).0) && has_link(adj, links[j].0, links[j].1)
    &&& forall|i: int, j: int| 0 <= i < j < links.len() ==> !same_pair(#[trigger] links[i], #[trigger] links[j])
    &&& visited.no_duplicates()
    &&& forall|j: int| 0 <= j < visited.len() ==> u.contains_key(#[trigger] visited[j])
}

/// Whether the waiting list holds a link between `x` and `y`, one way or the other.
pub open spec fn listed(links: Seq<(char, char, i8)>, x: char, y: char) -> bool {
    exists|j: int| 0 <= j < links.len() && (((#[trigger] links[j]).0 == x && links[j].1 == y) || (links[j].0 == y && links[j].1 == x))
}

/// Whether the link between `x` and `y` is the one through which one of the nodes visited
/// after the first was reached (`parents[k]` is the position of the node from which node `k`
/// was reached).
pub open spec fn tree_link(visited: Seq<char>, parents: Seq<int>, x: char, y: char) -> bool {
    exists|k: int| 1 <= k < visited.len() && ((visited[#[trigger] parents[k]] == x && visited[k] == y) || (visited[k] == x && visited[parents[k]] == y))
}

/// What else holds along Prim's search: every link from a visited node to one not visited
/// yet is waiting; each visited node after the first keeps the link through which it was
/// reached, which no longer waits; a link between visited nodes is such a link or is waiting;
/// the links go both ways.
pub open spec fn prim_tree(adj: Adjacency, u: Adjacency, visited: Seq<char>, links: Seq<(char, char, i8)>, parents: Seq<int>) -> bool {
    &&& forall|x: char, y: char| #[trigger] has_link(u, x, y) && visited.contains(x) && !visited.contains(y)
        ==> exists|j: int| 0 <= j < links.len() && (#[trigger] links[j]).0 == x && links[j].1 == y
    &&& parents.len() == visited.len()
    &&& forall|k: int| 1 <= k < visited.len() ==> 0 <= #[trigger] parents[k] < k
        && has_link(adj, visited[parents[k]], visited[k]) && !listed(links, visited[parents[k]], visited[k])
    &&& forall|x: char, y: char| #[trigger] has_link(adj, x, y) && visited.contains(x) && visited.contains(y)
        ==> tree_link(visited, parents, x, y) || listed(links, x, y)
    &&& forall|x: char, y: char| #[trigger] has_link(adj, x, y) ==> has_link(adj, y, x)
}

/// Whether node `k` of `order` has a link with a node before it.
pub open spec fn linked_back(adj: Adjacency, order: Seq<char>, k: int) -> bool {
    exists|j: int| 0 <= j < k && #[trigger] has_link(adj, order[j], order[k])
}

/// Whether `order` lists the nodes of `adj`, each once, and each after the first has exactly
/// one link with a node before it (so that the links of `adj` make a tree).
pub open spec fn tree_order(adj: Adjacency, order: Seq<char>) -> bool {
    &&& order.no_duplicates()
    &&& forall|x: char| #[trigger] adj.contains_key(x) <==> order.contains(x)
    &&& forall|k: int| 1 <= k < order.len() ==> #[trigger] linked_back(adj, order, k)
    &&& forall|j1: int, j2: int, k: int|
        0 <= j1 < k && 0 <= j2 < k && k < order.len() && #[trigger] has_link(adj, order[j1], order[k]) && #[trigger] has_link(adj, order[j2], order[k])
            ==> j1 == j2
}

/// Whether each waiting link carries the value of the link of `u`.
pub open spec fn priced(u: Adjacency, links: Seq<(char, char, i8)>) -> bool {
    forall|j: int| 0 <= j < links.len() ==> (#[trigger] links[j]).2 == u[links[j].0][links[j].1]
}

/// Whether node `k` of `visited` was reached through a link of least value among the links of
/// `u` from the nodes visited before it to the others.
pub open spec fn cheapest_join(u: Adjacency, visited: Seq<char>, parents: Seq<int>, k: int) -> bool {
    forall|x: char, y: char| #[trigger] has_link(u, x, y) && visited.take(k).contains(x) && !visited.take(k).contains(y)
        ==> u[visited[parents[k]]][visited[k]] <= u[x][y]
}

/// Whether each node of `order` after the first is joined to a node before it by a link of
/// `tree` of least value among the links of `adj` between the nodes before it and the others.
pub open spec fn joins_cheapest(adj: Adjacency, tree: Adjacency, order: Seq<char>) -> bool {
    forall|k: int, j: int, x: char, y: char|
        0 <= j < k < order.len() && #[trigger] has_link(tree, order[j], order[k])
            && #[trigger] has_link(adj, x, y) && order.take(k).contains(x) && !order.take(k).contains(y)
            ==> tree[order[j]][order[k]] <= adj[x][y]
}

/// Visiting the far end of the cheapest waiting link keeps each visited node reached through
/// a link of least value out of the nodes visited before it.
proof fn lemma_greedy_visit(u: Adjacency, v0: Seq<char>, parents: Seq<int>, l0: Seq<(char, char, i8)>, i: int, pf: int)
    requires
        forall|k: int| 1 <= k < v0.len() ==> #[trigger] cheapest_join(u, v0, parents, k),
        parents.len() == v0.len(),
        forall|k: int| 1 <= k < v0.len() ==> 0 <= #[trigger] parents[k] < k,
        priced(u, l0),
        0 <= i < l0.len(),
        forall|j: int| 0 <= j < l0.len() ==> l0[i].2 <= (#[trigger] l0[j]).2,
        forall|x: char, y: char| #[trigger] has_link(u, x, y) && v0.contains(x) && !v0.contains(y)
            ==> exists|j: int| 0 <= j < l0.len() && (#[trigger] l0[j]).0 == x && l0[j].1 == y,
        0 <= pf < v0.len(),
        v0[pf] == l0[i].0,
    ensures
        forall|k: int| 1 <= k < v0.len() + 1 ==> #[trigger] cheapest_join(u, v0.push(l0[i].1), parents.push(pf), k),
{
    let v1 = v0.push(l0[i].1);
    let p1 = parents.push(pf);
    let n = v0.len() as int;
    assert forall|k: int| 1 <= k < n + 1 implies #[trigger] cheapest_join(u, v1, p1, k) by {
        assert(v1.take(k) =~= v0.take(k));
        if k < n {
            assert(cheapest_join(u, v0, parents, k));
            assert(p1[k] == parents[k]);
            assert(v1[p1[k]] == v0[parents[k]]);
            assert(v1[k] == v0[k]);
        } else {
            assert(v0.take(n) =~= v0);
            assert(p1[k] == pf);
            assert(v1[pf] == l0[i].0);
            assert(v1[k] == l0[i].1);
            assert forall|x: char, y: char| #[trigger] has_link(u, x, y) && v1.take(k).contains(x) && !v1.take(k).contains(y)
                implies u[v1[p1[k]]][v1[k]] <= u[x][y] by {
                let j = choose|j: int| 0 <= j < l0.len() && (#[trigger] l0[j]).0 == x && l0[j].1 == y;
                assert(l0[j].2 == u[x][y]);
                assert(l0[i].2 == u[l0[i].0][l0[i].1]);
            }
        }
    }
}

/// Each node of a tree order after the first is joined to the nodes before it through its
/// parent link only: a link of least value out of them.
proof fn lemma_joins_cheapest(u: Adjacency, adj: Adjacency, visited: Seq<char>, parents: Seq<int>)
    requires
        tree_order(adj, visited),
        parents.len() == visited.len(),
        forall|k: int| 1 <= k < visited.len() ==> 0 <= #[trigger] parents[k] < k
            && has_link(adj, visited[parents[k]], visited[k]),
        forall|k: int| 1 <= k < visited.len() ==> #[trigger] cheapest_join(u, visited, parents, k),
        sub_adjacency(adj, u),
    ensures
        joins_cheapest(u, adj, visited),
{
    assert forall|k: int, j: int, x: char, y: char|
        0 <= j < k < visited.len() && #[trigger] has_link(adj, visited[j], visited[k])
            && #[trigger] has_link(u, x, y) && visited.take(k).contains(x) && !visited.take(k).contains(y)
        implies adj[visited[j]][visited[k]] <= u[x][y] by {
        assert(0 <= parents[k] < k);
        assert(has_link(adj, visited[parents[k]], visited[k]));
        assert(j == parents[k]);
        assert(cheapest_join(u, visited, parents, k));
        assert(has_link(u, visited[j], visited[k]));
    }
}

/// `links` without entry `i`: entry `j` comes from entry `j` before `i`, from entry `j + 1` after.
proof fn lemma_removed(links: Seq<(char, char, i8)>, i: int)
    requires
        0 <= i < links.len(),
    ensures
        forall|j: int| 0 <= j < links.len() - 1 ==> (#[trigger] links.remove(i)[j]) == links[if j < i { j } else { j + 1 }],
        links.remove(i).len() == links.len() - 1,
{
}

/// Listed in `links` without entry `i`: listed in `links`, not as entry `i`.
proof fn lemma_listed_removed(links: Seq<(char, char, i8)>, i: int, x: char, y: char)
    requires
        0 <= i < links.len(),
        listed(links, x, y),
        !(((links[i].0 == x && links[i].1 == y) || (links[i].0 == y && links[i].1 == x))),
    ensures
        listed(links.remove(i), x, y),
{
    let j = choose|j: int| 0 <= j < links.len() && (((#[trigger] links[j]).0 == x && links[j].1 == y) || (links[j].0 == y && links[j].1 == x));
    lemma_removed(links, i);
    let jj = if j < i { j } else { j - 1 };
    assert(links.remove(i)[jj] == links[j]);
}

/// Listed in `links` without entry `i`: listed in `links`.
proof fn lemma_listed_kept(links: Seq<(char, char, i8)>, i: int, x: char, y: char)
    requires
        0 <= i < links.len(),
        listed(links.remove(i), x, y),
    ensures
        listed(links, x, y),
{
    let r = links.remove(i);
    let j = choose|j: int| 0 <= j < r.len() && (((#[trigger] r[j]).0 == x && r[j].1 == y) || (r[j].0 == y && r[j].1 == x));
    lemma_removed(links, i);
    let jj = if j < i { j } else { j + 1 };
    assert(r[j] == links[jj]);
}

/// Deleting a waiting link between two visited nodes keeps what holds along the search.
proof fn lemma_tree_delete(adj0: Adjacency, u: Adjacency, visited: Seq<char>, links: Seq<(char, char, i8)>, parents: Seq<int>, i: int)
    requires
        prim_tree(adj0, u, visited, links, parents),
        prim_state(adj0, u, visited, links),
        0 <= i < links.len(),
        visited.contains(links[i].1),
    ensures
        prim_tree(crate::graph::without_pair(adj0, links[i].0, links[i].1), u, visited, links.remove(i), parents),
{
    let f = links[i].0;
    let t = links[i].1;
    let adj1 = crate::graph::without_pair(adj0, f, t);
    let l1 = links.remove(i);
    lemma_removed(links, i);
    assert forall|x: char, y: char| #[trigger] has_link(u, x, y) && visited.contains(x) && !visited.contains(y)
        implies exists|j: int| 0 <= j < l1.len() && (#[trigger] l1[j]).0 == x && l1[j].1 == y by {
        let j = choose|j: int| 0 <= j < links.len() && (#[trigger] links[j]).0 == x && links[j].1 == y;
        assert(j != i);
        let jj = if j < i { j } else { j - 1 };
        assert(l1[jj] == links[j]);
    }
    assert forall|k: int| 1 <= k < visited.len() implies 0 <= #[trigger] parents[k] < k
        && has_link(adj1, visited[parents[k]], visited[k]) && !listed(l1, visited[parents[k]], visited[k]) by {
        let p = visited[parents[k]];
        let c = visited[k];
        if listed(l1, p, c) {
            lemma_listed_kept(links, i, p, c);
        }
        assert(listed(links, f, t)) by {
            assert(links[i].0 == f && links[i].1 == t);
        }
        if (p == f && c == t) || (p == t && c == f) {
            assert(listed(links, p, c)) by {
                assert(links[i].0 == f && links[i].1 == t);
            }
        }
    }
    assert forall|x: char, y: char| #[trigger] has_link(adj1, x, y) && visited.contains(x) && visited.contains(y)
        implies tree_link(visited, parents, x, y) || listed(l1, x, y) by {
        assert(has_link(adj0, x, y));
        if !tree_link(visited, parents, x, y) {
            assert(listed(links, x, y));
            lemma_listed_removed(links, i, x, y);
        }
    }
    assert forall|x: char, y: char| #[trigger] has_link(adj1, x, y) implies has_link(adj1, y, x) by {
        assert(has_link(adj0, x, y));
        assert(has_link(adj0, y, x));
    }
}

/// Listed in a prefix: listed.
proof fn lemma_listed_prefix(l1: Seq<(char, char, i8)>, after: Seq<(char, char, i8)>, x: char, y: char)
    requires
        l1.len() <= after.len(),
        after.subrange(0, l1.len() as int) == l1,
        listed(l1, x, y),
    ensures
        listed(after, x, y),
{
    let j = choose|j: int| 0 <= j < l1.len() && (((#[trigger] l1[j]).0 == x && l1[j].1 == y) || (l1[j].0 == y && l1[j].1 == x));
    assert(after.subrange(0, l1.len() as int)[j] == after[j]);
}

/// Reaching a node through a waiting link, then listing the links from it to the nodes not
/// visited yet, keeps what holds along the search.
proof fn lemma_tree_visit(
    adj: Adjacency,
    u: Adjacency,
    visited: Seq<char>,
    links: Seq<(char, char, i8)>,
    parents: Seq<int>,
    i: int,
    after: Seq<(char, char, i8)>,
)
    requires
        prim_tree(adj, u, visited, links, parents),
        prim_state(adj, u, visited, links),
        crate::graph::adjacency_wf(u),
        forall|x: char, y: char| #[trigger] has_link(u, x, y) ==> has_link(u, y, x),
        0 <= i < links.len(),
        !visited.contains(links[i].1),
        links.remove(i).len() <= after.len(),
        after.subrange(0, links.remove(i).len() as int) == links.remove(i),
        forall|j: int| links.remove(i).len() <= j < after.len() ==> (#[trigger] after[j]).0 == links[i].1
            && !visited.push(links[i].1).contains(after[j].1),
        forall|w: char| #[trigger] has_link(u, links[i].1, w) && !visited.push(links[i].1).contains(w) ==> exists|j: int|
            links.remove(i).len() <= j < after.len() && (#[trigger] after[j]).0 == links[i].1 && after[j].1 == w,
    ensures
        prim_tree(adj, u, visited.push(links[i].1), after, parents.push(visited.index_of(links[i].0))),
{
    let f = links[i].0;
    let t = links[i].1;
    let v1 = visited.push(t);
    let p1 = parents.push(visited.index_of(f));
    let l1 = links.remove(i);
    let n1 = l1.len();
    lemma_removed(links, i);
    assert(visited.contains(f));
    let pf = visited.index_of(f);
    assert(0 <= pf < visited.len() && visited[pf] == f);
    assert(has_link(adj, f, t));
    assert forall|x: char| #[trigger] v1.contains(x) <==> visited.contains(x) || x == t by {
        if v1.contains(x) {
            let q = v1.index_of(x);
            if q < visited.len() {
                assert(visited[q] == v1[q]);
            }
        }
        if visited.contains(x) {
            let q = visited.index_of(x);
            assert(v1[q] == visited[q]);
        }
        if x == t {
            assert(v1[visited.len() as int] == t);
        }
    }
    assert(!listed(after, f, t)) by {
        if listed(after, f, t) {
            let j = choose|j: int| 0 <= j < after.len() && (((#[trigger] after[j]).0 == f && after[j].1 == t) || (after[j].0 == t && after[j].1 == f));
            if j < n1 {
                assert(after.subrange(0, n1 as int)[j] == after[j]);
                let jj = if j < i { j } else { j + 1 };
                assert(l1[j] == links[jj]);
                if jj < i {
                    assert(!same_pair(links[jj], links[i]));
                } else {
                    assert(!same_pair(links[i], links[jj]));
                }
            } else {
                assert(!v1.contains(after[j].1));
            }
        }
    }
    // every link from a visited node to one not visited yet waits
    assert forall|x: char, y: char| #[trigger] has_link(u, x, y) && v1.contains(x) && !v1.contains(y)
        implies exists|j: int| 0 <= j < after.len() && (#[trigger] after[j]).0 == x && after[j].1 == y by {
        if x == t {
            let j = choose|j: int| n1 <= j < after.len() && (#[trigger] after[j]).0 == t && after[j].1 == y;
        } else {
            let j = choose|j: int| 0 <= j < links.len() && (#[trigger] links[j]).0 == x && links[j].1 == y;
            assert(j != i);
            let jj = if j < i { j } else { j - 1 };
            assert(l1[jj] == links[j]);
            assert(after.subrange(0, n1 as int)[jj] == after[jj]);
            assert(after[jj] == links[j]);
        }
    }
    // the links through which the nodes were reached stay and no longer wait
    assert forall|k: int| 1 <= k < v1.len() implies 0 <= #[trigger] p1[k] < k
        && has_link(adj, v1[p1[k]], v1[k]) && !listed(after, v1[p1[k]], v1[k]) by {
        if k < visited.len() {
            assert(p1[k] == parents[k]);
            assert(v1[parents[k]] == visited[parents[k]]);
            assert(v1[k] == visited[k]);
            let p = visited[parents[k]];
            let c = visited[k];
            assert(visited.contains(p) && visited.contains(c));
            if listed(after, p, c) {
                let j = choose|j: int| 0 <= j < after.len() && (((#[trigger] after[j]).0 == p && after[j].1 == c) || (after[j].0 == c && after[j].1 == p));
                if j < n1 {
                    assert(after.subrange(0, n1 as int)[j] == after[j]);
                    assert(listed(l1, p, c));
                    lemma_listed_kept(links, i, p, c);
                } else {
                    assert(!v1.contains(after[j].1));
                }
            }
        } else {
            assert(p1[k] == pf);
            assert(v1[pf] == f);
            assert(v1[k] == t);
        }
    }
    // a link between visited nodes is a link through which one was reached, or waits
    assert forall|x: char, y: char| #[trigger] has_link(adj, x, y) && v1.contains(x) && v1.contains(y)
        implies tree_link(v1, p1, x, y) || listed(after, x, y) by {
        assert(has_link(u, x, y));
        assert(x != y);
        if visited.contains(x) && visited.contains(y) {
            if tree_link(visited, parents, x, y) {
                let k = choose|k: int| 1 <= k < visited.len() && ((visited[#[trigger] parents[k]] == x && visited[k] == y) || (visited[k] == x && visited[parents[k]] == y));
                assert(p1[k] == parents[k]);
                assert(v1[parents[k]] == visited[parents[k]]);
                assert(v1[k] == visited[k]);
            } else {
                assert(listed(links, x, y));
                assert(!(((links[i].0 == x && links[i].1 == y) || (links[i].0 == y && links[i].1 == x))));
                lemma_listed_removed(links, i, x, y);
                lemma_listed_prefix(l1, after, x, y);
            }
        } else {
            let z = if x == t { y } else { x };
            assert(visited.contains(z));
            assert(has_link(u, z, t));
            let j = choose|j: int| 0 <= j < links.len() && (#[trigger] links[j]).0 == z && links[j].1 == t;
            let k = visited.len() as int;
            if j == i {
                assert(z == f);
                assert(p1[k] == pf && v1[pf] == f && v1[k] == t);
            } else {
                assert(listed(links, z, t));
                assert(!(((links[i].0 == z && links[i].1 == t) || (links[i].0 == t && links[i].1 == z)))) by {
                    if links[i].0 == z && links[i].1 == t {
                        if j < i {
                            assert(!same_pair(links[j], links[i]));
                        } else {
                            assert(!same_pair(links[i], links[j]));
                        }
                    }
                }
                lemma_listed_removed(links, i, z, t);
                lemma_listed_prefix(l1, after, z, t);
            }
        }
    }
}

/// The nodes of a path of `u` from a visited node are visited, when no link leads from a
/// visited node to one not visited.
proof fn lemma_closed_path(u: Adjacency, visited: Seq<char>, p: Seq<char>, i: int)
    requires
        forall|x: char, y: char| #[trigger] has_link(u, x, y) && visited.contains(x) ==> visited.contains(y),
        crate::algo::connectivity::linked_path(u, p),
        p.len() > 0,
        visited.contains(p[0]),
        0 <= i < p.len(),
    ensures
        visited.contains(p[i]),
    decreases i,
{
    if i > 0 {
        lemma_closed_path(u, visited, p, i - 1);
        let q = i - 1;
        assert(has_link(u, p[q], p[q + 1]));
    }
}

/// At the end of the search, with nothing waiting, when every node can be reached from the
/// first one along the links of `u`: the visited nodes, in order, make the links a tree.
proof fn lemma_tree_final(adj: Adjacency, u: Adjacency, visited: Seq<char>, parents: Seq<int>)
    requires
        prim_tree(adj, u, visited, Seq::empty(), parents),
        prim_state(adj, u, visited, Seq::empty()),
        visited.len() > 0,
        adj.dom() == u.dom(),
        forall|y: char| #[trigger] u.contains_key(y) ==> crate::algo::connectivity::reachable(u, visited[0], y),
    ensures
        tree_order(adj, visited),
{
    let none = Seq::<(char, char, i8)>::empty();
    assert forall|x: char, y: char| #[trigger] has_link(u, x, y) && visited.contains(x) implies visited.contains(y) by {
        if !visited.contains(y) {
            let j = choose|j: int| 0 <= j < none.len() && (#[trigger] none[j]).0 == x && none[j].1 == y;
        }
    }
    assert forall|x: char| #[trigger] adj.contains_key(x) <==> visited.contains(x) by {
        if adj.contains_key(x) {
            assert(u.contains_key(x));
            assert(crate::algo::connectivity::reachable(u, visited[0], x));
            let p = choose|p: Seq<char>| #[trigger] crate::algo::connectivity::linked_path(u, p) && p.len() > 0 && p[0] == visited[0] && p.last() == x;
            assert(visited.contains(visited[0]));
            lemma_closed_path(u, visited, p, p.len() - 1);
        }
        if visited.contains(x) {
            let q = visited.index_of(x);
            assert(u.contains_key(visited[q]));
        }
    }
    assert forall|k: int| 1 <= k < visited.len() implies #[trigger] linked_back(adj, visited, k) by {
        let j = parents[k];
        assert(0 <= j < k);
        assert(has_link(adj, visited[j], visited[k]));
    }
    assert forall|j1: int, j2: int, k: int|
        0 <= j1 < k && 0 <= j2 < k && k < visited.len() && #[trigger] has_link(adj, visited[j1], visited[k]) && #[trigger] has_link(adj, visited[j2], visited[k])
        implies j1 == j2 by {
        assert forall|j: int| 0 <= j < k && has_link(adj, visited[j], visited[k]) implies j == parents[k] by {
            assert(visited.contains(visited[j]) && visited.contains(visited[k]));
            assert(!listed(none, visited[j], visited[k]));
            assert(tree_link(visited, parents, visited[j], visited[k]));
            let m = choose|m: int| 1 <= m < visited.len() && ((visited[#[trigger] parents[m]] == visited[j] && visited[m] == visited[k])
                || (visited[m] == visited[j] && visited[parents[m]] == visited[k]));
            assert(0 <= parents[m] < m);
            if visited[parents[m]] == visited[j] && visited[m] == visited[k] {
                assert(m == k);
                assert(parents[m] == j);
            } else {
                assert(m == j);
                assert(parents[m] == k);
            }
        }
        assert(j1 == parents[k]);
        assert(j2 == parents[k]);
    }
    assert(visited.no_duplicates());
}

/// The position of the cheapest waiting link: the last one of least value.
fn cheapest(links: &Vec<(char, char, i8)>) -> (i: usize)
    requires
        links@.len() > 0,
    ensures
        i < links@.len(),
        forall|j: int| 0 <= j < links@.len() ==> links@[i as int].2 <= (#[trigger] links@[j]).2,
        forall|j: int| i < j < links@.len() ==> links@[i as int].2 < (#[trigger] links@[j]).2,
{
    let mut best: usize = 0;
    let mut j: usize = 1;
    while j < links.len()
        invariant
            1 <= j <= links@.len(),
            best < j,
            forall|k: int| 0 <= k < j ==> links@[best as int].2 <= (#[trigger] links@[k]).2,
            forall|k: int| best < k < j ==> links@[best as int].2 < (#[trigger] links@[k]).2,
        decreases links@.len() - j,
    {
        if links[j].2 <= links[best].2 {
            best = j;
        }
        j = j + 1;
    }
    best
}

impl Tree {
    /// Visits `start`: the links from it to the nodes not visited yet join the waiting list,
    /// and the label of each of those nodes is stroked in green.
    fn reach<E: LayoutEngine>(
        stg: &mut Graph<E>,
        rows: &KeyMap<char, KeyMap<char, i8>>,
        start: char,
        visited: &mut Vec<char>,
        links: &mut Vec<(char, char, i8)>,
        Ghost(u): Ghost<Adjacency>,
    )
        requires
            old(stg).wf(),
            !old(stg).is_paused(),
            old(stg).adj().dom() == u.dom(),
            rows_wf(*rows),
            rows_view(*rows) == u,
            crate::graph::adjacency_wf(u),
            u.contains_key(start),
            !old(visited)@.contains(start),
            prim_state(old(stg).adj(), u, old(visited)@, old(links)@),
        ensures
            final(stg).wf(),
            !final(stg).is_paused(),
            final(stg).adj() == old(stg).adj(),
            final(visited)@ == old(visited)@.push(start),
            prim_state(final(stg).adj(), u, final(visited)@, final(links)@),
            forall|j: int| old(links)@.len() <= j < final(links)@.len()
                ==> (#[trigger] final(links)@[j]).2 == u[final(links)@[j].0][final(links)@[j].1],
            old(links)@.len() <= final(links)@.len(),
            final(links)@.subrange(0, old(links)@.len() as int) == old(links)@,
            forall|j: int| old(links)@.len() <= j < final(links)@.len() ==> (#[trigger] final(links)@[j]).0 == start
                && !final(visited)@.contains(final(links)@[j].1),
            forall|w: char| #[trigger] has_link(u, start, w) && !final(visited)@.contains(w) ==> exists|j: int|
                old(links)@.len() <= j < final(links)@.len() && (#[trigger] final(links)@[j]).0 == start && final(links)@[j].1 == w,
    {
        let ghost adj = stg.adj();
        let ghost v0 = visited@;
        let ghost l0 = links@;
        visited.push(start);
        proof {
            assert forall|j: int| 0 <= j < l0.len() implies visited@.contains((#[trigger] l0[j]).0) by {
                assert(v0.contains(l0[j].0));
                let q = v0.index_of(l0[j].0);
                assert(visited@[q] == l0[j].0);
            }
            assert forall|x: char, y: char| #[trigger] has_link(u, x, y) && !(visited@.contains(x) && visited@.contains(y)) implies has_link(adj, x, y) by {
                if v0.contains(x) {
                    let q = v0.index_of(x);
                    assert(visited@[q] == x);
                }
                if v0.contains(y) {
                    let q = v0.index_of(y);
                    assert(visited@[q] == y);
                }
            }
        }
        let row = rows.get(&start).unwrap();
        proof {
            row.lemma_keys();
        }
        let mut r: usize = 0;
        while r < row.len()
            invariant
                stg.wf(),
                !stg.is_paused(),
                stg.adj() == adj,
                adj.dom() == u.dom(),
                row.wf(),
                row@ == u[start],
                row.keys().no_duplicates(),
                row.keys().len() == row.spec_len(),
                crate::graph::adjacency_wf(u),
                u.contains_key(start),
                r <= row.spec_len(),
                visited@ == v0.push(start),
                !v0.contains(start),
                l0.len() <= links@.len(),
                links@.subrange(0, l0.len() as int) == l0,
                forall|j: int| 0 <= j < l0.len() ==> v0.contains((#[trigger] l0[j]).0),
                forall|j: int| l0.len() <= j < links@.len() ==> (#[trigger] links@[j]).0 == start
                    && row.keys().subrange(0, r as int).contains(links@[j].1),
                forall|j: int| l0.len() <= j < links@.len() ==> !visited@.contains((#[trigger] links@[j]).1),
                forall|j: int| l0.len() <= j < links@.len() ==> (#[trigger] links@[j]).2 == u[links@[j].0][links@[j].1],
                forall|q: int| 0 <= q < r && !visited@.contains(#[trigger] row.keys()[q]) ==> exists|j: int|
                    l0.len() <= j < links@.len() && (#[trigger] links@[j]).0 == start && links@[j].1 == row.keys()[q],
                prim_state(adj, u, visited@, links@),
            decreases row.spec_len() - r,
        {
            let to = row.key_at(r);
            let value = *row.value_at(r);
            assert(u[start].contains_key(to));
            if !holds(visited, to) {
                let ghost lb = links@;
                links.push((start, to, value));
                stg.color_label(to, (0, 255, 0));
                proof {
                    assert(has_link(u, start, to));
                    assert(!(visited@.contains(start) && visited@.contains(to)));
                    assert(has_link(adj, start, to));
                    assert(visited@[v0.len() as int] == start);
                    assert forall|i: int, j: int| 0 <= i < j < links@.len() implies !same_pair(#[trigger] links@[i], #[trigger] links@[j]) by {
                        if j == lb.len() {
                            assert(links@[i] == lb[i]);
                            if i < l0.len() {
                                assert(links@[i] == l0[i]);
                                assert(v0.contains(l0[i].0));
                                if l0[i].0 == to {
                                    let q = v0.index_of(to);
                                    assert(visited@[q] == to);
                                }
                            } else {
                                assert(row.keys().subrange(0, r as int).contains(lb[i].1));
                                let q = row.keys().subrange(0, r as int).index_of(lb[i].1);
                                assert(row.keys()[q] == lb[i].1);
                                assert(row.keys()[r as int] == to);
                                assert(u[start].contains_key(lb[i].1));
                            }
                        } else {
                            assert(links@[i] == lb[i]);
                            assert(links@[j] == lb[j]);
                        }
                    }
                    assert(links@.subrange(0, l0.len() as int) =~= l0) by {
                        assert(lb.subrange(0, l0.len() as int) == l0);
                    }
                    assert forall|j: int| l0.len() <= j < links@.len() implies (#[trigger] links@[j]).0 == start
                        && row.keys().subrange(0, r + 1).contains(links@[j].1) by {
                        if j < lb.len() {
                            assert(links@[j] == lb[j]);
                            let q = row.keys().subrange(0, r as int).index_of(lb[j].1);
                            assert(row.keys().subrange(0, r + 1)[q] == lb[j].1);
                        } else {
                            assert(row.keys().subrange(0, r + 1)[r as int] == to);
                        }
                    }
                    assert forall|j: int| 0 <= j < links@.len() implies visited@.contains((#[trigger] links@[j]).0) && has_link(adj, links@[j].0, links@[j].1) by {
                        if j < lb.len() {
                            assert(links@[j] == lb[j]);
                        }
                    }
                    assert forall|j: int| l0.len() <= j < links@.len() implies !visited@.contains((#[trigger] links@[j]).1)
                        && links@[j].2 == u[links@[j].0][links@[j].1] by {
                        if j < lb.len() {
                            assert(links@[j] == lb[j]);
                        } else {
                            assert(links@[j] == (start, to, value));
                        }
                    }
                    assert forall|q: int| 0 <= q < r + 1 && !visited@.contains(#[trigger] row.keys()[q]) implies exists|j: int|
                        l0.len() <= j < links@.len() && (#[trigger] links@[j]).0 == start && links@[j].1 == row.keys()[q] by {
                        if q < r {
                            let j = choose|j: int| l0.len() <= j < lb.len() && (#[trigger] lb[j]).0 == start && lb[j].1 == row.keys()[q];
                            assert(links@[j] == lb[j]);
                        } else {
                            assert(links@[lb.len() as int] == (start, to, value));
                        }
                    }
                }
            } else {
                proof {
                    assert forall|j: int| l0.len() <= j < links@.len() implies (#[trigger] links@[j]).0 == start
                        && row.keys().subrange(0, r + 1).contains(links@[j].1) by {
                        let q = row.keys().subrange(0, r as int).index_of(links@[j].1);
                        assert(row.keys().subrange(0, r + 1)[q] == links@[j].1);
                    }
                    assert(visited@.contains(row.keys()[r as int]));
                }
            }
            r = r + 1;
        }
        proof {
            assert(links@.subrange(0, l0.len() as int) == l0);
            assert forall|w: char| #[trigger] has_link(u, start, w) && !visited@.contains(w) implies exists|j: int|
                l0.len() <= j < links@.len() && (#[trigger] links@[j]).0 == start && links@[j].1 == w by {
                assert(row@.contains_key(w));
                row.lemma_key_in_keys(w);
                let q = row.keys().index_of(w);
                assert(row.keys()[q] == w);
            }
        }
    }

    /// Returns a minimal spanning tree (Prim): from the first node, the cheapest waiting link
    /// is taken again and again (the last one listed, of those of least value); a link to a
    /// node already reached is colored red and deleted, else it is colored green and its end
    /// node is visited.
    #[verifier::rlimit(40)]
    pub fn minimal_spanning_tree<E: LayoutEngine>(g: &Graph<E>) -> (stg: Graph<E>)
        requires
            g.wf(),
            g.describable(),
            connected(g.adj()),
            exists|k: char| g.adj().contains_key(k),
        ensures
            stg.wf(),
            stg.adj().dom() == g.adj().dom(),
            sub_adjacency(stg.adj(), undirected(g.adj())),
            forall|x: char, y: char| #[trigger] has_link(stg.adj(), x, y) ==> has_link(stg.adj(), y, x),
            exists|order: Seq<char>| #[trigger] tree_order(stg.adj(), order) && joins_cheapest(undirected(g.adj()), stg.adj(), order),
    {
        let mut stg = undirected_copy(g);
        let ghost u = stg.adj();
        let (_, _components) = Connectivity::components(g);
        let nodes = stg.nodes();
        proof {
            let k = choose|k: char| g.adj().contains_key(k);
            assert(nodes@.contains(k));
            stg.lemma_nodes_finite();
        }
        let ghost ns = stg.node_seq();
        proof {
            assert forall|x: char| #[trigger] u.contains_key(x) <==> ns.contains(x) by {
                assert(ns.to_set().contains(x) <==> ns.contains(x));
            }
        }
        let mut start = nodes[0];
        stg.color_node(start, (0, 192, 0));
        stg.color_label(start, (0, 255, 0));
        let rows = stg.adjacency_list();
        let mut visited: Vec<char> = Vec::new();
        let mut links: Vec<(char, char, i8)> = Vec::new();
        proof {
            assert(nodes@.contains(nodes@[0]));
        }
        let ghost first = start;
        Self::reach(&mut stg, &rows, start, &mut visited, &mut links, Ghost(u));
        let ghost mut parents: Seq<int> = seq![0int];
        proof {
            lemma_visited_bound(u, visited@, ns);
            assert(visited@ == seq![first]);
            assert forall|x: char| #[trigger] visited@.contains(x) <==> x == first by {
                if visited@.contains(x) {
                    assert(visited@[visited@.index_of(x)] == x);
                }
                if x == first {
                    assert(visited@[0] == first);
                }
            }
            assert forall|x: char, y: char| #[trigger] has_link(u, x, y) && visited@.contains(x) && !visited@.contains(y)
                implies exists|j: int| 0 <= j < links@.len() && (#[trigger] links@[j]).0 == x && links@[j].1 == y by {
                let j = choose|j: int| 0 <= j < links@.len() && (#[trigger] links@[j]).0 == first && links@[j].1 == y;
            }
            assert forall|x: char, y: char| #[trigger] has_link(stg.adj(), x, y) && visited@.contains(x) && visited@.contains(y)
                implies tree_link(visited@, parents, x, y) || listed(links@, x, y) by {
                assert(x == first && y == first);
            }
            assert(prim_tree(stg.adj(), u, visited@, links@, parents));
            assert forall|y: char| #[trigger] u.contains_key(y) implies crate::algo::connectivity::reachable(u, first, y) by {
                assert(g.adj().contains_key(first) && g.adj().contains_key(y));
            }
        }
        while links.len() > 0
            invariant
                stg.wf(),
                !stg.is_paused(),
                stg.adj().dom() == u.dom(),
                rows_wf(rows),
                rows_view(rows) == u,
                crate::graph::adjacency_wf(u),
                forall|x: char, y: char| #[trigger] has_link(u, x, y) ==> has_link(u, y, x),
                u == undirected(g.adj()),
                u.dom() == g.adj().dom(),
                prim_state(stg.adj(), u, visited@, links@),
                ns.no_duplicates(),
                forall|x: char| #[trigger] u.contains_key(x) <==> ns.contains(x),
                visited@.len() <= ns.len(),
                prim_tree(stg.adj(), u, visited@, links@, parents),
                visited@.len() > 0,
                visited@[0] == first,
                forall|y: char| #[trigger] u.contains_key(y) ==> crate::algo::connectivity::reachable(u, first, y),
                priced(u, links@),
                forall|k: int| 1 <= k < visited@.len() ==> #[trigger] cheapest_join(u, visited@, parents, k),
            decreases ns.len() - visited@.len(), links@.len(),
        {
            let i = cheapest(&links);
            let ghost l0 = links@;
            let ghost adj0 = stg.adj();
            let (node_from, node_to, _) = links.remove(i);
            assert(l0[i as int] == (node_from, node_to, l0[i as int].2));
            if holds(&visited, node_to) {
                stg.color_link(node_from, node_to, (192, 0, 0));
                stg.delete_link(node_from, node_to);
                proof {
                    lemma_tree_delete(adj0, u, visited@, l0, parents, i as int);
                    let adj1 = stg.adj();
                    assert forall|x: char, y: char| #[trigger] has_link(adj1, x, y) implies has_link(u, x, y) && adj1[x][y] == u[x][y] by {
                        assert(has_link(adj0, x, y));
                    }
                    assert forall|x: char, y: char| #[trigger] has_link(u, x, y) && !(visited@.contains(x) && visited@.contains(y)) implies has_link(adj1, x, y) by {
                        assert(has_link(adj0, x, y));
                    }
                    assert forall|j: int| 0 <= j < links@.len() implies visited@.contains((#[trigger] links@[j]).0) && has_link(adj1, links@[j].0, links@[j].1) by {
                        let jj = if j < i { j } else { j + 1 };
                        assert(links@[j] == l0[jj]);
                        if jj < i {
                            assert(!same_pair(l0[jj], l0[i as int]));
                        } else {
                            assert(!same_pair(l0[i as int], l0[jj]));
                        }
                        assert(has_link(adj0, l0[jj].0, l0[jj].1));
                    }
                    assert forall|a: int, b: int| 0 <= a < b < links@.len() implies !same_pair(#[trigger] links@[a], #[trigger] links@[b]) by {
                        let aa = if a < i { a } else { a + 1 };
                        let bb = if b < i { b } else { b + 1 };
                        assert(links@[a] == l0[aa]);
                        assert(links@[b] == l0[bb]);
                    }
                    assert forall|j: int| 0 <= j < links@.len() implies (#[trigger] links@[j]).2 == u[links@[j].0][links@[j].1] by {
                        let jj = if j < i { j } else { j + 1 };
                        assert(links@[j] == l0[jj]);
                    }
                }
            } else {
                stg.color_link(node_from, node_to, (0, 192, 0));
                stg.color_node(node_to, (0, 196, 0));
                start = node_to;
                proof {
                    assert forall|j: int| 0 <= j < links@.len() implies visited@.contains((#[trigger] links@[j]).0) && has_link(stg.adj(), links@[j].0, links@[j].1) by {
                        let jj = if j < i { j } else { j + 1 };
                        assert(links@[j] == l0[jj]);
                    }
                    assert forall|a: int, b: int| 0 <= a < b < links@.len() implies !same_pair(#[trigger] links@[a], #[trigger] links@[b]) by {
                        let aa = if a < i { a } else { a + 1 };
                        let bb = if b < i { b } else { b + 1 };
                        assert(links@[a] == l0[aa]);
                        assert(links@[b] == l0[bb]);
                    }
                }
                let ghost v0 = visited@;
                let ghost adj1 = stg.adj();
                assert(adj1 == adj0);
                let ghost l1 = links@;
                Self::reach(&mut stg, &rows, start, &mut visited, &mut links, Ghost(u));
                proof {
                    lemma_visited_bound(u, visited@, ns);
                    lemma_tree_visit(adj0, u, v0, l0, parents, i as int, links@);
                    assert(v0.contains(l0[i as int].0));
                    let pf = v0.index_of(l0[i as int].0);
                    lemma_greedy_visit(u, v0, parents, l0, i as int, pf);
                    parents = parents.push(pf);
                    assert(visited@[0] == v0[0]);
                    assert forall|j: int| 0 <= j < links@.len() implies (#[trigger] links@[j]).2 == u[links@[j].0][links@[j].1] by {
                        if j < l1.len() {
                            assert(links@.subrange(0, l1.len() as int)[j] == l1[j]);
                            let jj = if j < i { j } else { j + 1 };
                            assert(l1[j] == l0[jj]);
                        }
                    }
                }
            }
        }
        proof {
            assert(links@ =~= Seq::<(char, char, i8)>::empty());
            lemma_tree_final(stg.adj(), u, visited@, parents);
            lemma_joins_cheapest(u, stg.adj(), visited@, parents);
            assert(tree_order(stg.adj(), visited@) && joins_cheapest(undirected(g.adj()), stg.adj(), visited@));
        }
        stg
    }
}

/// The nodes visited, being distinct nodes, are at most as many as the nodes.
proof fn lemma_visited_bound(u: Adjacency, visited: Seq<char>, ns: Seq<char>)
    requires
        visited.no_duplicates(),
        forall|j: int| 0 <= j < visited.len() ==> u.contains_key(#[trigger] visited[j]),
        forall|x: char| #[trigger] u.contains_key(x) <==> ns.contains(x),
    ensures
        visited.len() <= ns.len(),
{
    assert forall|j: int| 0 <= j < visited.len() implies ns.contains(#[trigger] visited[j]) by {
        assert(u.contains_key(visited[j]));
    }
    crate::graph::lemma_distinct_within(visited, ns);
}


/// The nodes that a search reached, in the order of its entries.
pub open spec fn reached(entries: Seq<(i32, char, char)>) -> Seq<char> {
    entries.map_values(|e: (i32, char, char)| e.2)
}

/// What holds along the breadth-first search over `adj`, cut out of the symmetric `orig`, once
/// the first `done` nodes of `order` have been handled: each node after the first was reached
/// from a handled node before it (`parents`), through a link that stays; every link of `orig`
/// from a handled node leads to a reached node; every other link from a handled node is one
/// through which a node was reached; the links go both ways; a link taken out of `orig` joins
/// two reached nodes.
pub open spec fn bfs_state(adj: Adjacency, orig: Adjacency, order: Seq<char>, parents: Seq<int>, done: int) -> bool {
    &&& parents.len() == order.len()
    &&& 0 <= done <= order.len()
    &&& order.no_duplicates()
    &&& forall|m: int| 1 <= m < order.len() ==> 0 <= #[trigger] parents[m] < done && parents[m] < m
        && has_link(adj, order[parents[m]], order[m])
    &&& forall|x: char, y: char| #[trigger] has_link(orig, x, y) && order.take(done).contains(x) ==> order.contains(y)
    &&& forall|i: int, j: int| 0 <= i < done && 0 <= j < order.len() && i != j && #[trigger] has_link(adj, order[i], order[j])
        ==> tree_link(order, parents, order[i], order[j])
    &&& forall|x: char, y: char| #[trigger] has_link(adj, x, y) ==> has_link(adj, y, x) && has_link(orig, x, y)
    &&& forall|x: char, y: char| #[trigger] has_link(orig, x, y) && !has_link(adj, x, y) ==> order.contains(x) && order.contains(y)
}

/// What holds while node `done` of `order` is handled, its first `k` neighbors `ns` seen: as in
/// `bfs_state` for the nodes before it; each node reached from it is one of those neighbors;
/// each of them has been reached, and a link to it that stays is one through which a node was
/// reached; its links lead to nodes of `ns`.
pub open spec fn bfs_scan(adj: Adjacency, orig: Adjacency, order: Seq<char>, parents: Seq<int>, done: int, ns: Seq<char>, k: int) -> bool {
    &&& parents.len() == order.len()
    &&& 0 <= done < order.len()
    &&& order.no_duplicates()
    &&& 0 <= k <= ns.len()
    &&& ns.no_duplicates()
    &&& forall|m: int| 1 <= m < order.len() ==> 0 <= #[trigger] parents[m] <= done && parents[m] < m
        && has_link(adj, order[parents[m]], order[m])
        && (parents[m] == done ==> ns.take(k).contains(order[m]))
    &&& forall|x: char, y: char| #[trigger] has_link(orig, x, y) && order.take(done).contains(x) ==> order.contains(y)
    &&& forall|i: int, j: int| 0 <= i < done && 0 <= j < order.len() && i != j && #[trigger] has_link(adj, order[i], order[j])
        ==> tree_link(order, parents, order[i], order[j])
    &&& forall|j: int| 0 <= j < k ==> order.contains(#[trigger] ns[j])
        && (ns[j] != order[done] && has_link(adj, order[done], ns[j]) ==> tree_link(order, parents, order[done], ns[j]))
    &&& forall|y: char| #[trigger] has_link(adj, order[done], y) ==> ns.contains(y)
    &&& forall|x: char, y: char| #[trigger] has_link(adj, x, y) ==> has_link(adj, y, x) && has_link(orig, x, y)
    &&& forall|x: char, y: char| #[trigger] has_link(orig, x, y) && !has_link(adj, x, y) ==> order.contains(x) && order.contains(y)
}

/// A link through which a node was reached stays one when another node is reached.
proof fn lemma_tree_link_push(order: Seq<char>, parents: Seq<int>, a: char, b: int, x: char, y: char)
    requires
        tree_link(order, parents, x, y),
        parents.len() == order.len(),
        forall|m: int| 1 <= m < order.len() ==> 0 <= #[trigger] parents[m] < m,
    ensures
        tree_link(order.push(a), parents.push(b), x, y),
{
    let m = choose|m: int| 1 <= m < order.len() && ((order[#[trigger] parents[m]] == x && order[m] == y)
        || (order[m] == x && order[parents[m]] == y));
    let o2 = order.push(a);
    let p2 = parents.push(b);
    assert(p2[m] == parents[m]);
    assert(o2[m] == order[m]);
    assert(o2[p2[m]] == order[parents[m]]);
}

/// A link through which a node was reached, taken the other way.
proof fn lemma_tree_link_flip(order: Seq<char>, parents: Seq<int>, x: char, y: char)
    requires
        tree_link(order, parents, x, y),
    ensures
        tree_link(order, parents, y, x),
{
    let m = choose|m: int| 1 <= m < order.len() && ((order[#[trigger] parents[m]] == x && order[m] == y)
        || (order[m] == x && order[parents[m]] == y));
    assert(1 <= m < order.len() && ((order[parents[m]] == y && order[m] == x) || (order[m] == y && order[parents[m]] == x)));
}

/// Handling a node begins: none of its neighbors is seen yet.
proof fn lemma_bfs_begin(adj: Adjacency, orig: Adjacency, order: Seq<char>, parents: Seq<int>, done: int, ns: Seq<char>)
    requires
        bfs_state(adj, orig, order, parents, done),
        done < order.len(),
        ns.no_duplicates(),
        adj.contains_key(order[done]),
        forall|y: char| #[trigger] adj[order[done]].contains_key(y) <==> ns.contains(y),
    ensures
        bfs_scan(adj, orig, order, parents, done, ns, 0),
{
    assert forall|y: char| #[trigger] has_link(adj, order[done], y) implies ns.contains(y) by {
        assert(adj[order[done]].contains_key(y));
    }
}

/// Handling a node ends, all its neighbors seen.
proof fn lemma_bfs_end(adj: Adjacency, orig: Adjacency, order: Seq<char>, parents: Seq<int>, done: int, ns: Seq<char>)
    requires
        bfs_scan(adj, orig, order, parents, done, ns, ns.len() as int),
    ensures
        bfs_state(adj, orig, order, parents, done + 1),
{
    let c = order[done];
    assert forall|x: char, y: char| #[trigger] has_link(orig, x, y) && order.take(done + 1).contains(x) implies order.contains(y) by {
        let i = order.take(done + 1).index_of(x);
        assert(order[i] == x);
        if i < done {
            assert(order.take(done)[i] == x);
        } else if has_link(adj, x, y) {
            assert(ns.contains(y));
            let jj = ns.index_of(y);
            assert(order.contains(ns[jj]));
        }
    }
    assert forall|i: int, j: int| 0 <= i < done + 1 && 0 <= j < order.len() && i != j && #[trigger] has_link(adj, order[i], order[j])
        implies tree_link(order, parents, order[i], order[j]) by {
        if i == done {
            assert(order[j] != c);
            assert(ns.contains(order[j]));
            let jj = ns.index_of(order[j]);
            assert(ns[jj] == order[j]);
        }
    }
}

/// A neighbor already handled is passed over.
proof fn lemma_bfs_skip(adj: Adjacency, orig: Adjacency, order: Seq<char>, parents: Seq<int>, done: int, ns: Seq<char>, k: int)
    requires
        bfs_scan(adj, orig, order, parents, done, ns, k),
        k < ns.len(),
        order.take(done + 1).contains(ns[k]),
    ensures
        bfs_scan(adj, orig, order, parents, done, ns, k + 1),
{
    let c = order[done];
    let n = ns[k];
    let i = order.take(done + 1).index_of(n);
    assert(order[i] == n);
    assert forall|m: int| 1 <= m < order.len() && #[trigger] parents[m] == done implies ns.take(k + 1).contains(order[m]) by {
        let jj = ns.take(k).index_of(order[m]);
        assert(ns.take(k + 1)[jj] == order[m]);
    }
    if n != c && has_link(adj, c, n) {
        assert(i != done);
        assert(has_link(adj, order[i], order[done]));
        lemma_tree_link_flip(order, parents, order[i], order[done]);
    }
}

/// A neighbor already waiting in the queue: the link to it is deleted.
proof fn lemma_bfs_delete(adj: Adjacency, orig: Adjacency, order: Seq<char>, parents: Seq<int>, done: int, ns: Seq<char>, k: int)
    requires
        bfs_scan(adj, orig, order, parents, done, ns, k),
        k < ns.len(),
        order.contains(ns[k]),
        !order.take(done + 1).contains(ns[k]),
        has_link(adj, order[done], ns[k]),
    ensures
        bfs_scan(crate::graph::without_pair(adj, order[done], ns[k]), orig, order, parents, done, ns, k + 1),
{
    let c = order[done];
    let n = ns[k];
    let a2 = crate::graph::without_pair(adj, c, n);
    assert(order.take(done + 1)[done] == c);
    assert(c != n);
    assert forall|x: char, y: char| has_link(a2, x, y) <==> has_link(adj, x, y) && !((x == c && y == n) || (x == n && y == c)) by {
        if adj.contains_key(x) {
            if x == c {
                assert(a2[x] == adj[c].remove(n));
            } else if x == n {
                assert(a2[x] == adj[n].remove(c));
            } else {
                assert(a2[x] == adj[x]);
            }
        }
    }
    assert forall|m: int| 1 <= m < order.len() implies 0 <= #[trigger] parents[m] <= done && parents[m] < m
        && has_link(a2, order[parents[m]], order[m])
        && (parents[m] == done ==> ns.take(k + 1).contains(order[m])) by {
        if order[m] == n && order[parents[m]] == c {
            assert(parents[m] == done);
            let jj = ns.take(k).index_of(order[m]);
            assert(ns[jj] == n);
        }
        if order[m] == c && order[parents[m]] == n {
            assert(m == done);
            assert(order.take(done + 1)[parents[m]] == n);
        }
        if parents[m] == done {
            let jj = ns.take(k).index_of(order[m]);
            assert(ns.take(k + 1)[jj] == order[m]);
        }
    }
    assert forall|i: int, j: int| 0 <= i < done && 0 <= j < order.len() && i != j && #[trigger] has_link(a2, order[i], order[j])
        implies tree_link(order, parents, order[i], order[j]) by {
        assert(has_link(adj, order[i], order[j]));
    }
    assert forall|j: int| 0 <= j < k + 1 implies order.contains(#[trigger] ns[j])
        && (ns[j] != order[done] && has_link(a2, order[done], ns[j]) ==> tree_link(order, parents, order[done], ns[j])) by {
        if j < k && has_link(a2, order[done], ns[j]) {
            assert(has_link(adj, order[done], ns[j]));
        }
    }
    assert forall|y: char| #[trigger] has_link(a2, order[done], y) implies ns.contains(y) by {
        assert(has_link(adj, order[done], y));
    }
    assert forall|x: char, y: char| #[trigger] has_link(a2, x, y) implies has_link(a2, y, x) && has_link(orig, x, y) by {
        assert(has_link(adj, x, y));
    }
    assert forall|x: char, y: char| #[trigger] has_link(orig, x, y) && !has_link(a2, x, y) implies order.contains(x) && order.contains(y) by {
        if has_link(adj, x, y) {
            assert(order.contains(order[done]));
        }
    }
}

/// A neighbor not reached yet joins the queue, reached from the node being handled.
proof fn lemma_bfs_enqueue(adj: Adjacency, orig: Adjacency, order: Seq<char>, parents: Seq<int>, done: int, ns: Seq<char>, k: int)
    requires
        bfs_scan(adj, orig, order, parents, done, ns, k),
        k < ns.len(),
        !order.contains(ns[k]),
        has_link(adj, order[done], ns[k]),
    ensures
        bfs_scan(adj, orig, order.push(ns[k]), parents.push(done), done, ns, k + 1),
{
    let c = order[done];
    let n = ns[k];
    let len = order.len() as int;
    let o2 = order.push(n);
    let p2 = parents.push(done);
    assert forall|i: int, j: int| 0 <= i < j < o2.len() implies o2[i] != o2[j] by {
        if j == len {
            assert(order.contains(order[i]));
        }
    }
    assert forall|x: char| order.contains(x) implies o2.contains(x) by {
        let i = order.index_of(x);
        assert(o2[i] == x);
    }
    assert(o2[len] == n);
    assert(o2.contains(n));
    assert forall|m: int| 1 <= m < o2.len() implies 0 <= #[trigger] p2[m] <= done && p2[m] < m
        && has_link(adj, o2[p2[m]], o2[m])
        && (p2[m] == done ==> ns.take(k + 1).contains(o2[m])) by {
        if m < len {
            assert(p2[m] == parents[m]);
            assert(o2[m] == order[m]);
            assert(o2[p2[m]] == order[parents[m]]);
            if parents[m] == done {
                let jj = ns.take(k).index_of(order[m]);
                assert(ns.take(k + 1)[jj] == order[m]);
            }
        } else {
            assert(o2[p2[m]] == c);
            assert(ns.take(k + 1)[k] == n);
        }
    }
    assert(o2.take(done) =~= order.take(done));
    assert forall|x: char, y: char| #[trigger] has_link(orig, x, y) && o2.take(done).contains(x) implies o2.contains(y) by {
        assert(order.contains(y));
    }
    assert forall|i: int, j: int| 0 <= i < done && 0 <= j < o2.len() && i != j && #[trigger] has_link(adj, o2[i], o2[j])
        implies tree_link(o2, p2, o2[i], o2[j]) by {
        assert(o2[i] == order[i]);
        if j < len {
            assert(o2[j] == order[j]);
            lemma_tree_link_push(order, parents, n, done, order[i], order[j]);
        } else {
            assert(has_link(orig, order[i], n));
            assert(order.take(done)[i] == order[i]);
            assert(order.contains(n));
        }
    }
    assert forall|j: int| 0 <= j < k + 1 implies o2.contains(#[trigger] ns[j])
        && (ns[j] != o2[done] && has_link(adj, o2[done], ns[j]) ==> tree_link(o2, p2, o2[done], ns[j])) by {
        assert(o2[done] == c);
        if j < k {
            assert(order.contains(ns[j]));
            if ns[j] != c && has_link(adj, c, ns[j]) {
                lemma_tree_link_push(order, parents, n, done, c, ns[j]);
            }
        } else {
            assert(p2[len] == done);
            assert(o2[p2[len]] == c && o2[len] == n);
        }
    }
    assert forall|x: char, y: char| #[trigger] has_link(orig, x, y) && !has_link(adj, x, y) implies o2.contains(x) && o2.contains(y) by {
        assert(order.contains(x) && order.contains(y));
    }
}

/// At the end of the breadth-first search, when every node can be reached from the first one
/// along the links of `orig`: the reached nodes, in order, make the links a tree.
proof fn lemma_bfs_final(adj: Adjacency, orig: Adjacency, order: Seq<char>, parents: Seq<int>)
    requires
        bfs_state(adj, orig, order, parents, order.len() as int),
        order.len() > 0,
        adj.dom() == orig.dom(),
        forall|j: int| 0 <= j < order.len() ==> adj.contains_key(#[trigger] order[j]),
        forall|y: char| #[trigger] orig.contains_key(y) ==> crate::algo::connectivity::reachable(orig, order[0], y),
    ensures
        tree_order(adj, order),
{
    assert(order.take(order.len() as int) =~= order);
    assert forall|x: char| #[trigger] adj.contains_key(x) <==> order.contains(x) by {
        if adj.contains_key(x) {
            assert(orig.contains_key(x));
            let p = choose|p: Seq<char>| #[trigger] crate::algo::connectivity::linked_path(orig, p) && p.len() > 0 && p[0] == order[0] && p.last() == x;
            assert(order.contains(order[0]));
            lemma_closed_path(orig, order, p, p.len() - 1);
        }
        if order.contains(x) {
            let q = order.index_of(x);
            assert(adj.contains_key(order[q]));
        }
    }
    assert forall|k: int| 1 <= k < order.len() implies #[trigger] linked_back(adj, order, k) by {
        let j = parents[k];
        assert(0 <= j < k);
        assert(has_link(adj, order[j], order[k]));
    }
    assert forall|j1: int, j2: int, k: int|
        0 <= j1 < k && 0 <= j2 < k && k < order.len() && #[trigger] has_link(adj, order[j1], order[k]) && #[trigger] has_link(adj, order[j2], order[k])
        implies j1 == j2 by {
        assert forall|j: int| 0 <= j < k && has_link(adj, order[j], order[k]) implies j == parents[k] by {
            assert(tree_link(order, parents, order[j], order[k]));
            let m = choose|m: int| 1 <= m < order.len() && ((order[#[trigger] parents[m]] == order[j] && order[m] == order[k])
                || (order[m] == order[j] && order[parents[m]] == order[k]));
            assert(0 <= parents[m] < m);
            if order[parents[m]] == order[j] && order[m] == order[k] {
                assert(m == k);
                assert(parents[m] == j);
            } else {
                assert(m == j);
                assert(parents[m] == k);
            }
        }
        assert(j1 == parents[k]);
        assert(j2 == parents[k]);
    }
}


/// The levels of the entries of a search, in order.
pub open spec fn levels(entries: Seq<(i32, char, char)>) -> Seq<int> {
    entries.map_values(|e: (i32, char, char)| e.0 as int)
}

/// What holds of the levels along the breadth-first search over `adj`, cut out of `orig`,
/// once the first `done` nodes of `order` have been handled: the first node is at level 0,
/// each other one a level below the node it was reached from, and the levels never go down
/// along the order; a link of `orig` from a handled node joins nodes at most a level apart;
/// a link taken out of `orig` has a handled end.
pub open spec fn bfs_levels(adj: Adjacency, orig: Adjacency, order: Seq<char>, parents: Seq<int>, lv: Seq<int>, done: int) -> bool {
    &&& lv.len() == order.len()
    &&& lv[0] == 0
    &&& forall|m: int| 1 <= m < order.len() ==> lv[m] == lv[#[trigger] parents[m]] + 1
    &&& forall|a: int, b: int| 0 <= a <= b < order.len() ==> #[trigger] lv[a] <= #[trigger] lv[b]
    &&& forall|i: int, j: int| 0 <= i < done && 0 <= j < order.len() && #[trigger] has_link(orig, order[i], order[j])
        ==> lv[j] <= lv[i] + 1 && lv[i] <= lv[j] + 1
    &&& forall|x: char, y: char| #[trigger] has_link(orig, x, y) && !has_link(adj, x, y)
        ==> order.take(done).contains(x) || order.take(done).contains(y)
}

/// What holds of the levels while node `done` of `order` is handled, its first `k` neighbors
/// `ns` seen: as in `bfs_levels` for the nodes before it; each neighbor seen is at most a level
/// away from it; its links of `orig` lead to nodes of `ns` or to handled nodes; a link taken
/// out of `orig` has a handled end, or that node as an end.
pub open spec fn bfs_levels_scan(adj: Adjacency, orig: Adjacency, order: Seq<char>, parents: Seq<int>, lv: Seq<int>, done: int, ns: Seq<char>, k: int) -> bool {
    &&& lv.len() == order.len()
    &&& lv[0] == 0
    &&& forall|m: int| 1 <= m < order.len() ==> lv[m] == lv[#[trigger] parents[m]] + 1
    &&& forall|a: int, b: int| 0 <= a <= b < order.len() ==> #[trigger] lv[a] <= #[trigger] lv[b]
    &&& forall|i: int, j: int| 0 <= i < done && 0 <= j < order.len() && #[trigger] has_link(orig, order[i], order[j])
        ==> lv[j] <= lv[i] + 1 && lv[i] <= lv[j] + 1
    &&& forall|q: int| 0 <= q < order.len() && q != done && ns.take(k).contains(#[trigger] order[q])
        ==> lv[q] <= lv[done] + 1 && lv[done] <= lv[q] + 1
    &&& forall|y: char| #[trigger] has_link(orig, order[done], y) ==> ns.contains(y) || order.take(done).contains(y)
    &&& forall|x: char, y: char| #[trigger] has_link(orig, x, y) && !has_link(adj, x, y)
        ==> order.take(done).contains(x) || order.take(done).contains(y) || x == order[done] || y == order[done]
}

/// Handling a node begins: its links of `orig` lead to its neighbors or to handled nodes.
proof fn lemma_levels_begin(adj: Adjacency, orig: Adjacency, order: Seq<char>, parents: Seq<int>, lv: Seq<int>, done: int, ns: Seq<char>)
    requires
        bfs_state(adj, orig, order, parents, done),
        bfs_levels(adj, orig, order, parents, lv, done),
        done < order.len(),
        adj.contains_key(order[done]),
        forall|y: char| #[trigger] adj[order[done]].contains_key(y) <==> ns.contains(y),
    ensures
        bfs_levels_scan(adj, orig, order, parents, lv, done, ns, 0),
{
    let c = order[done];
    assert forall|y: char| #[trigger] has_link(orig, c, y) implies ns.contains(y) || order.take(done).contains(y) by {
        if has_link(adj, c, y) {
            assert(adj[c].contains_key(y));
        } else if order.take(done).contains(c) {
            let i = order.take(done).index_of(c);
            assert(order[i] == c);
        }
    }
}

/// Handling a node ends, all its neighbors seen: its links of `orig` join nodes at most a level
/// apart.
proof fn lemma_levels_end(adj: Adjacency, orig: Adjacency, order: Seq<char>, parents: Seq<int>, lv: Seq<int>, done: int, ns: Seq<char>)
    requires
        bfs_scan(adj, orig, order, parents, done, ns, ns.len() as int),
        bfs_levels_scan(adj, orig, order, parents, lv, done, ns, ns.len() as int),
        forall|x: char, y: char| #[trigger] has_link(orig, x, y) ==> has_link(orig, y, x),
    ensures
        bfs_levels(adj, orig, order, parents, lv, done + 1),
{
    let c = order[done];
    assert(ns.take(ns.len() as int) =~= ns);
    assert forall|i: int, j: int| 0 <= i < done + 1 && 0 <= j < order.len() && #[trigger] has_link(orig, order[i], order[j])
        implies lv[j] <= lv[i] + 1 && lv[i] <= lv[j] + 1 by {
        if i == done && j != done {
            if order.take(done).contains(order[j]) {
                let q = order.take(done).index_of(order[j]);
                assert(order[q] == order[j]);
                assert(q == j);
                assert(has_link(orig, order[j], order[i]));
            } else {
                assert(ns.contains(order[j]));
            }
        }
    }
    assert forall|x: char, y: char| #[trigger] has_link(orig, x, y) && !has_link(adj, x, y)
        implies order.take(done + 1).contains(x) || order.take(done + 1).contains(y) by {
        assert(order.take(done + 1)[done] == c);
        if order.take(done).contains(x) {
            let q = order.take(done).index_of(x);
            assert(order.take(done + 1)[q] == x);
        }
        if order.take(done).contains(y) {
            let q = order.take(done).index_of(y);
            assert(order.take(done + 1)[q] == y);
        }
    }
}

/// A neighbor already handled: it is at most a level away.
proof fn lemma_levels_skip(adj: Adjacency, orig: Adjacency, order: Seq<char>, parents: Seq<int>, lv: Seq<int>, done: int, ns: Seq<char>, k: int)
    requires
        bfs_scan(adj, orig, order, parents, done, ns, k),
        bfs_levels_scan(adj, orig, order, parents, lv, done, ns, k),
        k < ns.len(),
        order.take(done + 1).contains(ns[k]),
        has_link(adj, order[done], ns[k]),
        forall|x: char, y: char| #[trigger] has_link(orig, x, y) ==> has_link(orig, y, x),
    ensures
        bfs_levels_scan(adj, orig, order, parents, lv, done, ns, k + 1),
{
    let c = order[done];
    let n = ns[k];
    let i = order.take(done + 1).index_of(n);
    assert(order[i] == n);
    assert forall|q: int| 0 <= q < order.len() && q != done && ns.take(k + 1).contains(#[trigger] order[q])
        implies lv[q] <= lv[done] + 1 && lv[done] <= lv[q] + 1 by {
        let p = ns.take(k + 1).index_of(order[q]);
        if p < k {
            assert(ns.take(k)[p] == order[q]);
        } else {
            assert(order[q] == n);
            assert(q == i);
            assert(has_link(orig, c, n));
            assert(has_link(orig, order[i], order[done]));
        }
    }
}

/// A neighbor waiting in the queue: it is at most a level below, and the link to it goes.
proof fn lemma_levels_delete(adj: Adjacency, orig: Adjacency, order: Seq<char>, parents: Seq<int>, lv: Seq<int>, done: int, ns: Seq<char>, k: int)
    requires
        bfs_scan(adj, orig, order, parents, done, ns, k),
        bfs_levels_scan(adj, orig, order, parents, lv, done, ns, k),
        k < ns.len(),
        order.contains(ns[k]),
        !order.take(done + 1).contains(ns[k]),
        has_link(adj, order[done], ns[k]),
    ensures
        bfs_levels_scan(crate::graph::without_pair(adj, order[done], ns[k]), orig, order, parents, lv, done, ns, k + 1),
{
    let c = order[done];
    let n = ns[k];
    let a2 = crate::graph::without_pair(adj, c, n);
    let qn = order.index_of(n);
    assert(order[qn] == n);
    if qn <= done {
        assert(order.take(done + 1)[qn] == n);
    }
    assert(qn > done);
    assert(1 <= qn);
    assert(parents[qn] <= done);
    assert(lv[parents[qn]] <= lv[done]);
    assert(lv[done] <= lv[qn]);
    assert forall|q: int| 0 <= q < order.len() && q != done && ns.take(k + 1).contains(#[trigger] order[q])
        implies lv[q] <= lv[done] + 1 && lv[done] <= lv[q] + 1 by {
        let p = ns.take(k + 1).index_of(order[q]);
        if p < k {
            assert(ns.take(k)[p] == order[q]);
        } else {
            assert(order[q] == n);
            assert(q == qn);
        }
    }
    assert forall|x: char, y: char| #[trigger] has_link(orig, x, y) && !has_link(a2, x, y)
        implies order.take(done).contains(x) || order.take(done).contains(y) || x == c || y == c by {
        if has_link(adj, x, y) {
            if x != c && y != c {
                if x == n {
                    assert(a2[x] == adj[n].remove(c));
                } else {
                    assert(a2[x] == adj[x]);
                }
            }
        }
    }
}

/// A neighbor not reached yet joins the queue a level below the node being handled.
proof fn lemma_levels_enqueue(adj: Adjacency, orig: Adjacency, order: Seq<char>, parents: Seq<int>, lv: Seq<int>, done: int, ns: Seq<char>, k: int)
    requires
        bfs_scan(adj, orig, order, parents, done, ns, k),
        bfs_levels_scan(adj, orig, order, parents, lv, done, ns, k),
        k < ns.len(),
        !order.contains(ns[k]),
        has_link(adj, order[done], ns[k]),
    ensures
        bfs_levels_scan(adj, orig, order.push(ns[k]), parents.push(done), lv.push(lv[done] + 1), done, ns, k + 1),
{
    let c = order[done];
    let n = ns[k];
    let len = order.len() as int;
    let o2 = order.push(n);
    let p2 = parents.push(done);
    let l2 = lv.push(lv[done] + 1);
    assert(o2[len] == n);
    assert(lv[len - 1] <= lv[done] + 1) by {
        if len - 1 >= 1 {
            assert(parents[len - 1] <= done);
            assert(lv[parents[len - 1]] <= lv[done]);
        }
    }
    assert forall|m: int| 1 <= m < o2.len() implies l2[m] == l2[#[trigger] p2[m]] + 1 by {
        if m < len {
            assert(p2[m] == parents[m]);
            assert(l2[p2[m]] == lv[parents[m]]);
        }
    }
    assert forall|a: int, b: int| 0 <= a <= b < o2.len() implies #[trigger] l2[a] <= #[trigger] l2[b] by {
        if b == len && a < len {
            assert(lv[a] <= lv[len - 1]);
        }
    }
    assert(o2.take(done) =~= order.take(done));
    assert forall|i: int, j: int| 0 <= i < done && 0 <= j < o2.len() && #[trigger] has_link(orig, o2[i], o2[j])
        implies l2[j] <= l2[i] + 1 && l2[i] <= l2[j] + 1 by {
        assert(o2[i] == order[i]);
        if j < len {
            assert(o2[j] == order[j]);
            assert(has_link(orig, order[i], order[j]));
        } else {
            assert(order.take(done)[i] == order[i]);
            assert(order.contains(n));
        }
    }
    assert forall|q: int| 0 <= q < o2.len() && q != done && ns.take(k + 1).contains(#[trigger] o2[q])
        implies l2[q] <= l2[done] + 1 && l2[done] <= l2[q] + 1 by {
        if q < len {
            assert(o2[q] == order[q]);
            let p = ns.take(k + 1).index_of(order[q]);
            if p < k {
                assert(ns.take(k)[p] == order[q]);
            } else {
                assert(order[q] == n);
                assert(order.contains(n));
            }
        }
    }
    assert forall|y: char| #[trigger] has_link(orig, o2[done], y) implies ns.contains(y) || o2.take(done).contains(y) by {
        assert(o2[done] == c);
    }
    assert forall|x: char, y: char| #[trigger] has_link(orig, x, y) && !has_link(adj, x, y)
        implies o2.take(done).contains(x) || o2.take(done).contains(y) || x == o2[done] || y == o2[done] by {
        assert(o2[done] == c);
    }
}

/// Whether the links of `tree` join each node of `order` after the first to a node a level
/// above it, from the level 0 of the first, and each link of `adj` joins nodes at most a level
/// apart (so that the level of a node is its distance from the first along the links of
/// `adj`).
pub open spec fn leveled(adj: Adjacency, tree: Adjacency, order: Seq<char>, lv: Seq<int>) -> bool {
    &&& lv.len() == order.len()
    &&& lv[0] == 0
    &&& forall|j: int, k: int| 0 <= j < k < order.len() && #[trigger] has_link(tree, order[j], order[k]) ==> lv[k] == lv[j] + 1
    &&& forall|i: int, j: int| 0 <= i < order.len() && 0 <= j < order.len() && #[trigger] has_link(adj, order[i], order[j])
        ==> lv[j] <= lv[i] + 1
}

/// At the end of the breadth-first search, the levels are those of a breadth-first tree.
proof fn lemma_levels_final(adj: Adjacency, orig: Adjacency, order: Seq<char>, parents: Seq<int>, lv: Seq<int>)
    requires
        bfs_state(adj, orig, order, parents, order.len() as int),
        bfs_levels(adj, orig, order, parents, lv, order.len() as int),
        tree_order(adj, order),
    ensures
        leveled(orig, adj, order, lv),
{
    assert forall|j: int, k: int| 0 <= j < k < order.len() && #[trigger] has_link(adj, order[j], order[k]) implies lv[k] == lv[j] + 1 by {
        assert(0 <= parents[k] < k);
        assert(has_link(adj, order[parents[k]], order[k]));
        assert(j == parents[k]);
    }
}

/// In a breadth-first tree, the level of a node is its distance from the root: no path of
/// `adj` from the root is shorter (in links) than the level of the node it reaches, and the
/// links of the tree lead from the root to each node in as many links as its level.
pub proof fn law_levels_are_distances(adj: Adjacency, tree: Adjacency, order: Seq<char>, lv: Seq<int>, p: Seq<char>, k: int)
    requires
        crate::graph::adjacency_wf(adj),
        tree_order(tree, order),
        leveled(adj, tree, order, lv),
        adj.dom() == tree.dom(),
        0 <= k < order.len(),
        crate::algo::connectivity::linked_path(adj, p),
        p.len() > 0,
        p[0] == order[0],
        p.last() == order[k],
    ensures
        p.len() - 1 >= lv[k],
        exists|t: Seq<char>| #[trigger] crate::algo::connectivity::linked_path(tree, t) && t.len() == lv[k] + 1
            && t[0] == order[0] && t.last() == order[k],
{
    lemma_path_levels(adj, tree, order, lv, p, p.len() - 1);
    assert(order.contains(order[k]));
    assert(order.index_of(order[k]) == k);
    lemma_tree_path(tree, order, lv, k);
}

/// Along a path of `adj` from the root, the `i`-th node is at a level of at most `i`.
proof fn lemma_path_levels(adj: Adjacency, tree: Adjacency, order: Seq<char>, lv: Seq<int>, p: Seq<char>, i: int)
    requires
        crate::graph::adjacency_wf(adj),
        tree_order(tree, order),
        leveled(adj, tree, order, lv),
        adj.dom() == tree.dom(),
        crate::algo::connectivity::linked_path(adj, p),
        0 <= i < p.len(),
        p[0] == order[0],
        order.len() > 0,
    ensures
        order.contains(p[i]),
        lv[order.index_of(p[i])] <= i,
    decreases i,
{
    if i == 0 {
        assert(order.contains(order[0]));
        assert(order.index_of(order[0]) == 0);
    } else {
        lemma_path_levels(adj, tree, order, lv, p, i - 1);
        let q = i - 1;
        assert(has_link(adj, p[q], p[q + 1]));
        assert(adj.contains_key(p[i]));
        assert(tree.contains_key(p[i]));
        assert(order.contains(p[i]));
        let a = order.index_of(p[q]);
        let b = order.index_of(p[i]);
        assert(order[a] == p[q]);
        assert(order[b] == p[i]);
        assert(has_link(adj, order[a], order[b]));
    }
}

/// The links of the tree lead from the root to node `k` of `order` in `lv[k]` links.
proof fn lemma_tree_path(tree: Adjacency, order: Seq<char>, lv: Seq<int>, k: int)
    requires
        tree_order(tree, order),
        lv.len() == order.len(),
        lv[0] == 0,
        forall|j: int, m: int| 0 <= j < m < order.len() && #[trigger] has_link(tree, order[j], order[m]) ==> lv[m] == lv[j] + 1,
        0 <= k < order.len(),
    ensures
        lv[k] >= 0,
        exists|t: Seq<char>| #[trigger] crate::algo::connectivity::linked_path(tree, t) && t.len() == lv[k] + 1
            && t[0] == order[0] && t.last() == order[k],
    decreases k,
{
    if k == 0 {
        let t = seq![order[0]];
        assert(crate::algo::connectivity::linked_path(tree, t));
    } else {
        assert(linked_back(tree, order, k));
        let j = choose|j: int| 0 <= j < k && #[trigger] has_link(tree, order[j], order[k]);
        lemma_tree_path(tree, order, lv, j);
        let t = choose|t: Seq<char>| #[trigger] crate::algo::connectivity::linked_path(tree, t) && t.len() == lv[j] + 1
            && t[0] == order[0] && t.last() == order[j];
        assert(lv[k] == lv[j] + 1);
        assert(t.len() > 0);
        let t2 = t.push(order[k]);
        assert forall|i: int| 0 <= i < t2.len() - 1 implies #[trigger] has_link(tree, t2[i], t2[i + 1]) by {
            if i < t.len() - 1 {
                assert(t2[i] == t[i] && t2[i + 1] == t[i + 1]);
                assert(has_link(tree, t[i], t[i + 1]));
            } else {
                assert(t2[i] == order[j]);
            }
        }
        assert(crate::algo::connectivity::linked_path(tree, t2));
        assert(t2[0] == order[0]);
    }
}

} // verus!
