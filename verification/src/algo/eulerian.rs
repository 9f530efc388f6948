//! Eulerian paths and cycles (Hierholzer).
use vstd::prelude::*;
use crate::algo::connectivity::{lemma_reach_prepend, lemma_reach_self, lemma_reach_trans, linked_path, reachable, strongly_connected};
use crate::algo::utils::color::{Color, ColorCycle};
use crate::graph::renderer::LayoutEngine;
use crate::graph::{has_link, is_directed, with_pair, without_node, predecessors, rows_view, rows_wf, successors, Adjacency, Graph};
use crate::keymap::KeyMap;
use vstd::multiset::Multiset;

verus! {

/// Whether a node of degrees `d` stands out: in a directed graph, when as many links do not
/// leave it as come in; in an undirected one, when an odd number of links touch it.
pub open spec fn unbalanced(directed: bool, d: (char, (usize, usize))) -> bool {
    if directed {
        d.1.0 != d.1.1
    } else {
        d.1.0 % 2 != 0
    }
}

/// The degrees among `m` that stand out.
pub open spec fn unbalanced_of(directed: bool, m: Multiset<(char, (usize, usize))>) -> Multiset<(char, (usize, usize))> {
    m.filter(|d: (char, (usize, usize))| unbalanced(directed, d))
}

/// Whether each node of `s` but the last has a link of `adj` to the next one.
pub open spec fn is_walk(adj: Adjacency, s: Seq<char>) -> bool {
    forall|k: int| 0 <= k < s.len() - 1 ==> #[trigger] has_link(adj, s[k], s[k + 1])
}

/// Whether `s` goes round: a walk whose last node has a link back to the first.
pub open spec fn is_round(adj: Adjacency, s: Seq<char>) -> bool {
    &&& s.len() > 0
    &&& is_walk(adj, s)
    &&& has_link(adj, s.last(), s[0])
}

/// `s` from position `p` on, then its first `p` nodes.
pub open spec fn rotation<A>(s: Seq<A>, p: int) -> Seq<A> {
    s.subrange(p, s.len() as int) + s.subrange(0, p)
}

/// Turning a round gives a round.
pub proof fn lemma_rotation_round(adj: Adjacency, s: Seq<char>, p: int)
    requires
        is_round(adj, s),
        0 <= p < s.len(),
    ensures
        is_round(adj, rotation(s, p)),
        rotation(s, p)[0] == s[p],
        rotation(s, p).len() == s.len(),
{
    let r = rotation(s, p);
    let n = s.len() as int;
    assert forall|k: int| 0 <= k < r.len() - 1 implies #[trigger] has_link(adj, r[k], r[k + 1]) by {
        if k + p < n - 1 {
            assert(r[k] == s[k + p]);
            assert(r[k + 1] == s[k + p + 1]);
            assert(has_link(adj, s[k + p], s[k + p + 1]));
        } else if k + p == n - 1 {
            assert(r[k] == s[n - 1]);
            assert(r[k + 1] == s[0]);
        } else {
            assert(r[k] == s[k + p - n]);
            assert(r[k + 1] == s[k + p - n + 1]);
            assert(has_link(adj, s[k + p - n], s[k + p - n + 1]));
        }
    }
    if p == 0 {
        assert(r =~= s);
    } else {
        let q = p - 1;
        assert(r.last() == s[q]);
        assert(r[0] == s[q + 1]);
        assert(has_link(adj, s[q], s[q + 1]));
    }
}

/// A round followed by another one from the same node is a round.
pub proof fn lemma_join_rounds(adj: Adjacency, a: Seq<char>, b: Seq<char>)
    requires
        is_round(adj, a),
        is_round(adj, b),
        a[0] == b[0],
    ensures
        is_round(adj, a + b),
        (a + b)[0] == a[0],
{
    let s = a + b;
    assert forall|k: int| 0 <= k < s.len() - 1 implies #[trigger] has_link(adj, s[k], s[k + 1]) by {
        if k < a.len() - 1 {
            assert(has_link(adj, a[k], a[k + 1]));
        } else if k == a.len() - 1 {
            assert(s[k + 1] == b[0]);
        } else {
            let j = k - a.len();
            assert(s[k] == b[j]);
            assert(s[k + 1] == b[j + 1]);
            assert(has_link(adj, b[j], b[j + 1]));
        }
    }
    assert(s.last() == b.last());
}

/// The steps of the walk `s`: from each node to the next one.
pub open spec fn steps(s: Seq<char>) -> Seq<(char, char)> {
    Seq::new((s.len() - 1) as nat, |k: int| (s[k], s[k + 1]))
}

/// The steps of the walk `s` continued to `to`: from each node to the next one, and from the
/// last one to `to`.
pub open spec fn walk_steps(s: Seq<char>, to: char) -> Seq<(char, char)> {
    Seq::new(s.len(), |k: int| (s[k], if k + 1 < s.len() { s[k + 1] } else { to }))
}

/// The steps of the round `s`: from each node to the next one, and from the last one back
/// to the first.
pub open spec fn round_steps(s: Seq<char>) -> Seq<(char, char)> {
    walk_steps(s, s[0])
}

/// Whether the step `st` takes the link from `x` to `y` (or, when `both`, the link back).
pub open spec fn takes(st: (char, char), x: char, y: char, both: bool) -> bool {
    (st.0 == x && st.1 == y) || (both && st.0 == y && st.1 == x)
}

/// Whether one of the steps `ss` takes the link from `x` to `y` (or, when `both`, back).
#[verifier::opaque]
pub open spec fn taken(ss: Seq<(char, char)>, x: char, y: char, both: bool) -> bool {
    exists|j: int| 0 <= j < ss.len() && #[trigger] takes(ss[j], x, y, both)
}

/// Whether no two of the steps `ss` take the same link (a link and the link back being one
/// link when `both`).
pub open spec fn once(ss: Seq<(char, char)>, both: bool) -> bool {
    forall|i: int, j: int| 0 <= i < j < ss.len() ==> !takes(#[trigger] ss[i], (#[trigger] ss[j]).0, ss[j].1, both)
}

/// Whether the steps `ss` take links of `a` only, and `r` holds the links of `a` that none of
/// them takes.
pub open spec fn rest(a: Adjacency, r: Adjacency, ss: Seq<(char, char)>, both: bool) -> bool {
    &&& forall|j: int| 0 <= j < ss.len() ==> has_link(a, (#[trigger] ss[j]).0, ss[j].1)
    &&& forall|x: char, y: char| #[trigger] has_link(r, x, y) <==> has_link(a, x, y) && !taken(ss, x, y, both)
}

/// Whether the walk `w` takes each link of `adj` exactly once (a link and the link back being
/// one link when `both`), and no other.
pub open spec fn euler_walk(adj: Adjacency, w: Seq<char>, both: bool) -> bool {
    &&& w.len() > 0
    &&& is_walk(adj, w)
    &&& once(steps(w), both)
    &&& forall|x: char, y: char| #[trigger] has_link(adj, x, y) ==> taken(steps(w), x, y, both)
}

/// A step taken with the rest: the link it takes leaves the rest, and no step took it before.
proof fn lemma_take_step(a: Adjacency, r: Adjacency, r2: Adjacency, ss: Seq<(char, char)>, both: bool, p: char, n: char)
    requires
        rest(a, r, ss, both),
        once(ss, both),
        has_link(r, p, n),
        forall|x: char, y: char| #[trigger] has_link(r2, x, y) <==> has_link(r, x, y) && !takes((p, n), x, y, both),
    ensures
        rest(a, r2, ss.push((p, n)), both),
        once(ss.push((p, n)), both),
{
    reveal(taken);
    let s2 = ss.push((p, n));
    assert(s2[ss.len() as int] == (p, n));
    assert forall|j: int| 0 <= j < s2.len() implies has_link(a, (#[trigger] s2[j]).0, s2[j].1) by {
        if j < ss.len() {
            assert(s2[j] == ss[j]);
        }
    }
    assert forall|x: char, y: char| #[trigger] has_link(r2, x, y) <==> has_link(a, x, y) && !taken(s2, x, y, both) by {
        if taken(s2, x, y, both) {
            let j = choose|j: int| 0 <= j < s2.len() && #[trigger] takes(s2[j], x, y, both);
            if j < ss.len() {
                assert(s2[j] == ss[j]);
                assert(takes(ss[j], x, y, both));
            }
        }
        if taken(ss, x, y, both) {
            let j = choose|j: int| 0 <= j < ss.len() && #[trigger] takes(ss[j], x, y, both);
            assert(s2[j] == ss[j]);
            assert(takes(s2[j], x, y, both));
        }
        if takes((p, n), x, y, both) {
            assert(takes(s2[ss.len() as int], x, y, both));
        }
    }
    assert forall|i: int, j: int| 0 <= i < j < s2.len() implies !takes(#[trigger] s2[i], (#[trigger] s2[j]).0, s2[j].1, both) by {
        assert(s2[i] == ss[i]);
        if j < ss.len() {
            assert(s2[j] == ss[j]);
        } else if takes(ss[i], p, n, both) {
            assert(taken(ss, p, n, both));
        }
    }
}

/// Two steps that take each other's link.
proof fn lemma_takes_flip(s1: (char, char), s2: (char, char), both: bool)
    ensures
        takes(s1, s2.0, s2.1, both) == takes(s2, s1.0, s1.1, both),
{
}

/// Turning the steps before `b` keeps the links they take, each once.
proof fn lemma_rotate_steps(a: Seq<(char, char)>, b: Seq<(char, char)>, p: int, both: bool)
    requires
        0 <= p < a.len(),
    ensures
        forall|x: char, y: char| taken(rotation(a, p) + b, x, y, both) == taken(a + b, x, y, both),
        once(a + b, both) ==> once(rotation(a, p) + b, both),
{
    reveal(taken);
    let r = rotation(a, p) + b;
    let s = a + b;
    let n = a.len() as int;
    assert(r.len() == s.len());
    assert forall|i: int| 0 <= i < r.len() implies r[i] == s[if i < n - p { i + p } else if i < n { i + p - n } else { i }] by {
        if i < n - p {
            assert(r[i] == rotation(a, p)[i]);
        } else if i < n {
            assert(r[i] == rotation(a, p)[i]);
        }
    }
    assert forall|x: char, y: char| taken(r, x, y, both) == taken(s, x, y, both) by {
        if taken(r, x, y, both) {
            let i = choose|i: int| 0 <= i < r.len() && #[trigger] takes(r[i], x, y, both);
            let k = if i < n - p { i + p } else if i < n { i + p - n } else { i };
            assert(takes(s[k], x, y, both));
        }
        if taken(s, x, y, both) {
            let k = choose|k: int| 0 <= k < s.len() && #[trigger] takes(s[k], x, y, both);
            let i = if k >= n { k } else if k >= p { k - p } else { k + n - p };
            assert(r[i] == s[k]);
            assert(takes(r[i], x, y, both));
        }
    }
    if once(s, both) {
        assert forall|i: int, j: int| 0 <= i < j < r.len() implies !takes(#[trigger] r[i], (#[trigger] r[j]).0, r[j].1, both) by {
            let ki = if i < n - p { i + p } else if i < n { i + p - n } else { i };
            let kj = if j < n - p { j + p } else if j < n { j + p - n } else { j };
            assert(r[i] == s[ki]);
            assert(r[j] == s[kj]);
            assert(ki != kj);
            if ki < kj {
                assert(!takes(s[ki], s[kj].0, s[kj].1, both));
            } else {
                assert(!takes(s[kj], s[ki].0, s[ki].1, both));
                lemma_takes_flip(s[ki], s[kj], both);
            }
        }
    }
}

/// Turning the steps before `b` keeps what they take from `a`.
proof fn lemma_rest_rotate(a: Adjacency, r: Adjacency, s1: Seq<(char, char)>, s2: Seq<(char, char)>, p: int, both: bool)
    requires
        rest(a, r, s1 + s2, both),
        once(s1 + s2, both),
        0 <= p < s1.len(),
    ensures
        rest(a, r, rotation(s1, p) + s2, both),
        once(rotation(s1, p) + s2, both),
{
    lemma_rotate_steps(s1, s2, p, both);
    let t = rotation(s1, p) + s2;
    let u = s1 + s2;
    let n = s1.len() as int;
    assert forall|j: int| 0 <= j < t.len() implies has_link(a, (#[trigger] t[j]).0, t[j].1) by {
        let k = if j < n - p { j + p } else if j < n { j + p - n } else { j };
        if j < n {
            assert(t[j] == rotation(s1, p)[j]);
        }
        assert(t[j] == u[k]);
    }
}

/// The steps of a round turned to start at `p` are the steps of the round, turned.
proof fn lemma_round_steps_rotation(s: Seq<char>, p: int)
    requires
        0 <= p < s.len(),
    ensures
        round_steps(rotation(s, p)) == rotation(round_steps(s), p),
{
    let r = rotation(s, p);
    let n = s.len() as int;
    let rs = round_steps(s);
    assert forall|i: int| 0 <= i < n implies #[trigger] round_steps(r)[i] == rotation(rs, p)[i] by {
        if i < n - p {
            assert(r[i] == s[i + p]);
            assert(rotation(rs, p)[i] == rs[i + p]);
            if i + 1 < n - p {
                assert(r[i + 1] == s[i + p + 1]);
            } else if i + 1 < n {
                assert(r[i + 1] == s[0]);
            } else {
                assert(r[0] == s[p]);
                assert(p == 0);
            }
        } else {
            assert(r[i] == s[i + p - n]);
            assert(rotation(rs, p)[i] == rs[i + p - n]);
            if i + 1 < n {
                assert(r[i + 1] == s[i + p - n + 1]);
            } else {
                assert(r[0] == s[p]);
            }
        }
    }
    assert(round_steps(r) =~= rotation(rs, p));
}

/// The steps of two rounds from the same node, one after the other, are the steps of each.
proof fn lemma_round_steps_join(a: Seq<char>, b: Seq<char>)
    requires
        a.len() > 0,
        b.len() > 0,
        a[0] == b[0],
    ensures
        round_steps(a + b) == round_steps(a) + round_steps(b),
{
    let s = a + b;
    assert forall|i: int| 0 <= i < s.len() implies #[trigger] round_steps(s)[i] == (round_steps(a) + round_steps(b))[i] by {
        if i < a.len() {
            assert(s[i] == a[i]);
            if i + 1 < a.len() {
                assert(s[i + 1] == a[i + 1]);
            } else {
                assert(s[i + 1] == b[0]);
            }
        } else {
            let j = i - a.len();
            assert(s[i] == b[j]);
            if j + 1 < b.len() {
                assert(s[i + 1] == b[j + 1]);
            }
        }
    }
    assert(round_steps(s) =~= round_steps(a) + round_steps(b));
}

/// A round whose steps take each link of `adj` exactly once, closed: a walk back to its first
/// node that takes each link exactly once.
proof fn lemma_euler_round(adj: Adjacency, cyc: Seq<char>, both: bool)
    requires
        cyc.len() > 0,
        once(round_steps(cyc), both),
        forall|j: int| 0 <= j < round_steps(cyc).len() ==> has_link(adj, (#[trigger] round_steps(cyc)[j]).0, round_steps(cyc)[j].1),
        forall|x: char, y: char| #[trigger] has_link(adj, x, y) ==> taken(round_steps(cyc), x, y, both),
    ensures
        euler_walk(adj, cyc.push(cyc[0]), both),
        cyc.push(cyc[0])[0] == cyc.push(cyc[0]).last(),
{
    let w = cyc.push(cyc[0]);
    let rs = round_steps(cyc);
    assert forall|k: int| 0 <= k < steps(w).len() implies #[trigger] steps(w)[k] == rs[k] by {
        assert(w[k] == cyc[k]);
        if k + 1 < cyc.len() {
            assert(w[k + 1] == cyc[k + 1]);
        }
    }
    assert(steps(w) =~= rs);
    assert forall|k: int| 0 <= k < w.len() - 1 implies #[trigger] has_link(adj, w[k], w[k + 1]) by {
        assert(steps(w)[k] == (w[k], w[k + 1]));
    }
}



/// Turning steps keeps the links they take, each once.
proof fn lemma_rotate_one(a: Seq<(char, char)>, p: int, both: bool)
    requires
        0 <= p < a.len(),
    ensures
        forall|x: char, y: char| #[trigger] taken(a, x, y, both) ==> taken(rotation(a, p), x, y, both),
        once(a, both) ==> once(rotation(a, p), both),
{
    let e = Seq::<(char, char)>::empty();
    lemma_rotate_steps(a, e, p, both);
    assert(a + e =~= a);
    assert(rotation(a, p) + e =~= rotation(a, p));
}





/// `v` turned so that it starts at position `p`.
fn rotated(v: &Vec<char>, p: usize) -> (r: Vec<char>)
    requires
        p <= v@.len(),
    ensures
        r@ == rotation(v@, p as int),
{
    let mut r: Vec<char> = Vec::new();
    let mut i: usize = p;
    while i < v.len()
        invariant
            p <= i <= v@.len(),
            r@ == v@.subrange(p as int, i as int),
        decreases v@.len() - i,
    {
        r.push(v[i]);
        i = i + 1;
        assert(r@ =~= v@.subrange(p as int, i as int));
    }
    let mut j: usize = 0;
    while j < p
        invariant
            j <= p <= v@.len(),
            r@ == v@.subrange(p as int, v@.len() as int) + v@.subrange(0, j as int),
        decreases p - j,
    {
        r.push(v[j]);
        j = j + 1;
        assert(r@ =~= v@.subrange(p as int, v@.len() as int) + v@.subrange(0, j as int));
    }
    r
}

/// The degrees of `s` that stand out, in order.
fn unbalanced_nodes(s: &Vec<(char, (usize, usize))>, directed: bool) -> (odd: Vec<(char, (usize, usize))>)
    ensures
        odd@.to_multiset() == unbalanced_of(directed, s@.to_multiset()),
        forall|j: int| 0 <= j < odd@.len() ==> unbalanced(directed, #[trigger] odd@[j]) && s@.contains(odd@[j]),
{
    broadcast use vstd::seq_lib::group_to_multiset_ensures;
    broadcast use vstd::multiset::group_multiset_axioms;
    let mut odd: Vec<(char, (usize, usize))> = Vec::new();
    let mut i: usize = 0;
    assert(s@.take(0) =~= Seq::<(char, (usize, usize))>::empty());
    assert(odd@.to_multiset() =~= unbalanced_of(directed, s@.take(0).to_multiset()));
    while i < s.len()
        invariant
            i <= s@.len(),
            odd@.to_multiset() == unbalanced_of(directed, s@.take(i as int).to_multiset()),
            forall|j: int| 0 <= j < odd@.len() ==> unbalanced(directed, #[trigger] odd@[j]) && s@.contains(odd@[j]),
        decreases s@.len() - i,
    {
        let d = s[i];
        let ghost before = odd@;
        assert(s@.take(i + 1) =~= s@.take(i as int).push(d));
        let keep = if directed {
            d.1.0 != d.1.1
        } else {
            d.1.0 % 2 != 0
        };
        let ghost m0 = s@.take(i as int).to_multiset();
        proof {
            vstd::seq_lib::to_multiset_build(s@.take(i as int), d);
        }
        assert(s@.take(i + 1).to_multiset() =~= m0.insert(d));
        assert(keep == unbalanced(directed, d));
        if keep {
            odd.push(d);
            assert(odd@ == before.push(d));
            proof {
                vstd::seq_lib::to_multiset_build(before, d);
            }
        }
        assert forall|v: (char, (usize, usize))| #[trigger] odd@.to_multiset().count(v) == unbalanced_of(directed, m0.insert(d)).count(v) by {
            assert(unbalanced_of(directed, m0).count(v) == if unbalanced(directed, v) { m0.count(v) } else { 0 });
            assert(unbalanced_of(directed, m0.insert(d)).count(v) == if unbalanced(directed, v) { m0.insert(d).count(v) } else { 0 });
        }
        assert(odd@.to_multiset() =~= unbalanced_of(directed, s@.take(i + 1).to_multiset()));
        assert forall|j: int| 0 <= j < odd@.len() implies unbalanced(directed, #[trigger] odd@[j]) && s@.contains(odd@[j]) by {
            if j < before.len() {
                assert(odd@[j] == before[j]);
            } else {
                assert(s@[i as int] == d);
            }
        }
        i = i + 1;
    }
    assert(s@.take(i as int) =~= s@);
    odd
}

/// Whether `r` has finitely many nodes, each with finitely many links.
pub open spec fn rows_finite(r: Adjacency) -> bool {
    &&& r.dom().finite()
    &&& forall|k: char| #[trigger] r.contains_key(k) ==> r[k].dom().finite()
}

/// Whether node `x` of `r` is as balanced as a walk from `start` that has reached `next` leaves
/// it: in a directed graph, as many links leave it as come in, counting one more leaving
/// `start` and one more coming in at `next`; in an undirected one, an even number touch it,
/// counting `start` and `next`.
pub open spec fn degree_gap(r: Adjacency, x: char, start: char, next: char, directed: bool) -> bool {
    let s: nat = if x == start { 1 } else { 0 };
    let n: nat = if x == next { 1 } else { 0 };
    if directed {
        successors(r, x).len() + s == predecessors(r, x).len() + n
    } else {
        (successors(r, x).len() + s + n) % 2 == 0
    }
}

/// Whether every node of `r` is as balanced as a walk from `start` to `next` leaves it.
pub open spec fn walk_balanced(r: Adjacency, start: char, next: char, directed: bool) -> bool {
    forall|x: char| #[trigger] degree_gap(r, x, start, next, directed)
}

/// Whether each link of `r` goes both ways.
pub open spec fn symmetric(r: Adjacency) -> bool {
    forall|x: char, y: char| #[trigger] has_link(r, x, y) ==> has_link(r, y, x)
}

/// The rows of a map of rows are finite.
proof fn lemma_rows_finite(m: KeyMap<char, KeyMap<char, i8>>)
    requires
        rows_wf(m),
    ensures
        rows_finite(rows_view(m)),
{
    m.lemma_keys();
    assert(rows_view(m).dom() =~= m@.dom());
    assert forall|k: char| #[trigger] rows_view(m).contains_key(k) implies rows_view(m)[k].dom().finite() by {
        m@[k].lemma_keys();
    }
}

/// The sets of links from and to a node of finite rows are finite.
proof fn lemma_link_sets_finite(r: Adjacency, x: char)
    requires
        rows_finite(r),
    ensures
        successors(r, x).finite(),
        predecessors(r, x).finite(),
{
    if r.contains_key(x) {
        assert(successors(r, x) =~= r[x].dom());
    } else {
        assert(successors(r, x) =~= Set::<char>::empty());
    }
    assert(predecessors(r, x).subset_of(r.dom()));
    vstd::set_lib::lemma_set_subset_finite(r.dom(), predecessors(r, x));
}

/// A walk on `r` takes the link from `p` to `n` (and back, when undirected): the balance moves
/// from `p` to `n`.
proof fn lemma_gap_step(r: Adjacency, r2: Adjacency, start: char, p: char, n: char, directed: bool)
    requires
        walk_balanced(r, start, p, directed),
        rows_finite(r),
        has_link(r, p, n),
        p != n,
        forall|x: char, y: char| #[trigger] has_link(r2, x, y) <==> has_link(r, x, y) && !takes((p, n), x, y, !directed),
        !directed ==> symmetric(r),
    ensures
        walk_balanced(r2, start, n, directed),
        !directed ==> symmetric(r2),
{
    assert forall|x: char| #[trigger] degree_gap(r2, x, start, n, directed) by {
        assert(degree_gap(r, x, start, p, directed));
        lemma_link_sets_finite(r, x);
        if x == p {
            assert(successors(r2, x) =~= successors(r, x).remove(n));
            assert(successors(r, x).contains(n));
        } else if x == n && !directed {
            assert(has_link(r, n, p));
            assert(successors(r2, x) =~= successors(r, x).remove(p));
            assert(successors(r, x).contains(p));
        } else {
            assert(successors(r2, x) =~= successors(r, x));
        }
        if directed {
            if x == n {
                assert(predecessors(r2, x) =~= predecessors(r, x).remove(p));
                assert(predecessors(r, x).contains(p));
            } else {
                assert(predecessors(r2, x) =~= predecessors(r, x));
            }
        }
    }
    if !directed {
        assert forall|x: char, y: char| #[trigger] has_link(r2, x, y) implies has_link(r2, y, x) by {
            assert(has_link(r, y, x));
        }
    }
}

/// Away from the start of the walk, the node it has reached has a link left.
proof fn lemma_gap_out(r: Adjacency, start: char, p: char, directed: bool)
    requires
        walk_balanced(r, start, p, directed),
        rows_finite(r),
        p != start,
    ensures
        exists|y: char| #[trigger] has_link(r, p, y),
{
    assert(degree_gap(r, p, start, p, directed));
    lemma_link_sets_finite(r, p);
    assert(successors(r, p).len() > 0);
    let y = successors(r, p).choose();
    assert(successors(r, p).contains(y));
    assert(has_link(r, p, y));
}

/// The links of `r`, as pairs.
pub open spec fn link_pairs(r: Adjacency) -> Set<(char, char)> {
    Set::new(|p: (char, char)| has_link(r, p.0, p.1))
}

/// The links of `r` from the nodes of `d`, as pairs.
spec fn pairs_from(r: Adjacency, d: Set<char>) -> Set<(char, char)> {
    Set::new(|p: (char, char)| d.contains(p.0) && has_link(r, p.0, p.1))
}

/// Finitely many nodes with finitely many links each: finitely many links from the nodes of
/// `d`.
proof fn lemma_pairs_from_finite(r: Adjacency, d: Set<char>)
    requires
        rows_finite(r),
        d.finite(),
    ensures
        pairs_from(r, d).finite(),
    decreases d.len(),
{
    if d.len() == 0 {
        assert(d =~= Set::<char>::empty());
        assert(pairs_from(r, d) =~= Set::<(char, char)>::empty());
    } else {
        let x = d.choose();
        lemma_pairs_from_finite(r, d.remove(x));
        let row = successors(r, x);
        lemma_link_sets_finite(r, x);
        let f = |y: char| (x, y);
        row.lemma_map_finite(f);
        assert forall|q: (char, char)| #[trigger] pairs_from(r, d).contains(q) implies pairs_from(r, d.remove(x)).union(row.map(f)).contains(q) by {
            if q.0 == x {
                assert(row.contains(q.1));
                assert(f(q.1) == q);
            }
        }
        assert(pairs_from(r, d).subset_of(pairs_from(r, d.remove(x)).union(row.map(f))));
        vstd::set_lib::lemma_set_subset_finite(pairs_from(r, d.remove(x)).union(row.map(f)), pairs_from(r, d));
    }
}

/// Finite rows hold finitely many links.
proof fn lemma_link_pairs_finite(r: Adjacency)
    requires
        rows_finite(r),
    ensures
        link_pairs(r).finite(),
{
    lemma_pairs_from_finite(r, r.dom());
    assert(link_pairs(r) =~= pairs_from(r, r.dom()));
}

/// Taking a link out leaves fewer links.
proof fn lemma_fewer_links(r: Adjacency, r2: Adjacency, p: char, n: char)
    requires
        rows_finite(r),
        has_link(r, p, n),
        forall|x: char, y: char| #[trigger] has_link(r2, x, y) ==> has_link(r, x, y) && !(x == p && y == n),
    ensures
        link_pairs(r2).len() < link_pairs(r).len(),
        link_pairs(r2).finite(),
{
    lemma_link_pairs_finite(r);
    assert(link_pairs(r2).subset_of(link_pairs(r).remove((p, n))));
    vstd::set_lib::lemma_set_subset_finite(link_pairs(r).remove((p, n)), link_pairs(r2));
    vstd::set_lib::lemma_len_subset(link_pairs(r2), link_pairs(r).remove((p, n)));
    assert(link_pairs(r).contains((p, n)));
}

/// What the search keeps when no node stands out and the graph has a link: the balance of a
/// walk from `start` that has reached `next`, the links both ways when undirected, and no
/// empty row.
pub open spec fn search_ok(r: Adjacency, start: char, next: char, directed: bool) -> bool {
    &&& walk_balanced(r, start, next, directed)
    &&& !directed ==> symmetric(r)
    &&& rows_full(r)
}

/// A walk that has come back where it started leaves the same balance as any other such walk.
proof fn lemma_balance_restart(r: Adjacency, s: char, t: char, directed: bool)
    requires
        walk_balanced(r, s, s, directed),
    ensures
        walk_balanced(r, t, t, directed),
{
    assert forall|x: char| #[trigger] degree_gap(r, x, t, t, directed) by {
        assert(degree_gap(r, x, s, s, directed));
    }
}

/// A row of a map of rows that has no empty row holds a link.
proof fn lemma_row_link(r: Adjacency, k: char)
    requires
        rows_finite(r),
        rows_full(r),
        r.contains_key(k),
    ensures
        exists|y: char| #[trigger] has_link(r, k, y),
{
    assert(r[k].dom().len() > 0);
    let y = r[k].dom().choose();
    assert(r[k].dom().contains(y));
    assert(has_link(r, k, y));
}

/// At the start of the search, when no node stands out and the graph has a link: the search
/// can go on from any node.
proof fn lemma_search_start<E: LayoutEngine>(g: &Graph<E>, start: char)
    requires
        g.wf(),
        unbalanced_count(g) == 0,
        strongly_connected(g.adj()),
        exists|x: char, y: char| #[trigger] has_link(g.adj(), x, y),
        g.adj().contains_key(start),
    ensures
        search_ok(g.adj(), start, start, is_directed(g.adj())),
        exists|y: char| #[trigger] has_link(g.adj(), start, y),
        g.adj().dom().len() > 0,
{
    let adj = g.adj();
    lemma_initial_balance(g, start);
    g.lemma_nodes_finite();
    if !is_directed(adj) {
        assert forall|x: char, y: char| #[trigger] has_link(adj, x, y) implies has_link(adj, y, x) by {
            if !has_link(adj, y, x) {
                assert(is_directed(adj));
            }
        }
    }
    assert forall|k: char| #[trigger] adj.contains_key(k) implies adj[k].dom().len() > 0 by {
        lemma_every_node_links(adj, k);
        let y = choose|y: char| #[trigger] has_link(adj, k, y);
        assert(adj[k].dom().contains(y));
        g.lemma_degrees_sets(k);
        assert(successors(adj, k) =~= adj[k].dom());
    }
    lemma_every_node_links(adj, start);
    assert(adj.dom().contains(start));
}

/// With no node standing out, every node is balanced.
proof fn lemma_initial_balance<E: LayoutEngine>(g: &Graph<E>, s: char)
    requires
        g.wf(),
        unbalanced_count(g) == 0,
    ensures
        walk_balanced(g.adj(), s, s, is_directed(g.adj())),
{
    broadcast use vstd::seq_lib::group_to_multiset_ensures;
    broadcast use vstd::multiset::group_multiset_axioms;
    let d = is_directed(g.adj());
    let m = g.degree_seq().to_multiset();
    g.lemma_adjacency();
    assert forall|x: char| #[trigger] degree_gap(g.adj(), x, s, s, d) by {
        if g.adj().contains_key(x) {
            g.lemma_degree_listed(x);
            g.lemma_degrees_sets(x);
            let e = (x, g.degrees(x));
            assert(m.count(e) > 0);
            if unbalanced(d, e) {
                assert(unbalanced_of(d, m).count(e) > 0);
                assert(unbalanced_of(d, m).len() > 0);
            }
        } else {
            assert(successors(g.adj(), x) =~= Set::<char>::empty());
            assert(predecessors(g.adj(), x) =~= Set::<char>::empty());
        }
    }
}

/// In a strongly connected graph with a link, every node has a link.
proof fn lemma_every_node_links(adj: Adjacency, x: char)
    requires
        strongly_connected(adj),
        exists|a: char, b: char| #[trigger] has_link(adj, a, b),
        adj.contains_key(x),
    ensures
        exists|y: char| #[trigger] has_link(adj, x, y),
{
    let (a, b) = choose|a: char, b: char| #[trigger] has_link(adj, a, b);
    if x != a {
        assert(crate::algo::connectivity::reachable(adj, x, a));
        let p = choose|p: Seq<char>| #[trigger] crate::algo::connectivity::linked_path(adj, p) && p.len() > 0 && p[0] == x && p.last() == a;
        assert(p.len() > 1);
        let q = 0int;
        assert(has_link(adj, p[q], p[q + 1]));
    }
}

/// The nodes of a link that a step of a round takes are nodes of the round.
proof fn lemma_taken_in_round(cyc: Seq<char>, u: char, v: char, both: bool)
    requires
        taken(round_steps(cyc), u, v, both),
    ensures
        cyc.contains(u),
        cyc.contains(v),
{
    reveal(taken);
    let rs = round_steps(cyc);
    let j = choose|j: int| 0 <= j < rs.len() && #[trigger] takes(rs[j], u, v, both);
    assert(cyc.contains(cyc[j]));
    if j + 1 < cyc.len() {
        assert(cyc.contains(cyc[j + 1]));
    } else {
        assert(cyc.contains(cyc[0]));
    }
}

/// Along a path from a node of the round, when no node of the round has a link left, every
/// node is a node of the round (each link from a node of the round having been taken).
proof fn lemma_path_stays(adj: Adjacency, r: Adjacency, cyc: Seq<char>, both: bool, p: Seq<char>, i: int)
    requires
        rest(adj, r, round_steps(cyc), both),
        forall|z: char, y: char| cyc.contains(z) ==> !#[trigger] has_link(r, z, y),
        crate::algo::connectivity::linked_path(adj, p),
        cyc.contains(p[0]),
        0 <= i < p.len(),
    ensures
        cyc.contains(p[i]),
    decreases i,
{
    if i > 0 {
        lemma_path_stays(adj, r, cyc, both, p, i - 1);
        let q = i - 1;
        assert(has_link(adj, p[q], p[q + 1]));
        assert(!has_link(r, p[q], p[q + 1]));
        lemma_taken_in_round(cyc, p[q], p[q + 1], both);
    }
}

/// When links are left, in a strongly connected graph, some node of the round has one.
proof fn lemma_round_touches(adj: Adjacency, r: Adjacency, cyc: Seq<char>, both: bool, x: char, y: char)
    requires
        strongly_connected(adj),
        rest(adj, r, round_steps(cyc), both),
        cyc.len() > 0,
        adj.contains_key(cyc[0]),
        has_link(r, x, y),
    ensures
        exists|z: char, w: char| cyc.contains(z) && #[trigger] has_link(r, z, w),
{
    assert(has_link(adj, x, y));
    if forall|z: char, w: char| cyc.contains(z) ==> !#[trigger] has_link(r, z, w) {
        assert(crate::algo::connectivity::reachable(adj, cyc[0], x));
        let p = choose|p: Seq<char>| #[trigger] crate::algo::connectivity::linked_path(adj, p) && p.len() > 0 && p[0] == cyc[0] && p.last() == x;
        assert(cyc.contains(cyc[0]));
        lemma_path_stays(adj, r, cyc, both, p, p.len() - 1);
        assert(cyc.contains(x));
    }
}

/// Whether every row of `a` holds a link.
pub open spec fn rows_full(a: Adjacency) -> bool {
    forall|k: char| #[trigger] a.contains_key(k) ==> a[k].dom().len() > 0
}

/// Takes the first link from `node` out of `rows` (and, when `both_ways`, the link back),
/// dropping the rows left empty; returns the node it leads to, or nothing when `node` has no
/// link left (or, when `both_ways`, the link back is missing).
fn take_first(rows: &mut KeyMap<char, KeyMap<char, i8>>, node: char, both_ways: bool) -> (r: Option<char>)
    requires
        rows_wf(*old(rows)),
    ensures
        rows_wf(*final(rows)),
        forall|x: char, y: char| #[trigger] has_link(rows_view(*final(rows)), x, y) ==> has_link(rows_view(*old(rows)), x, y),
        match r {
            Some(n) => has_link(rows_view(*old(rows)), node, n)
                && forall|x: char, y: char| #[trigger] has_link(rows_view(*final(rows)), x, y)
                    <==> has_link(rows_view(*old(rows)), x, y) && !takes((node, n), x, y, both_ways),
            None => true,
        },
        rows_full(rows_view(*old(rows))) ==> rows_full(rows_view(*final(rows))),
        (exists|y: char| #[trigger] has_link(rows_view(*old(rows)), node, y))
            && (both_ways ==> symmetric(rows_view(*old(rows))) && !has_link(rows_view(*old(rows)), node, node))
            ==> r is Some,
{
    let ghost before = rows_view(*rows);
    match rows.remove(&node) {
        None => {
            proof {
                assert(rows_view(*rows) =~= before);
                if exists|y: char| #[trigger] has_link(before, node, y) {
                    let y = choose|y: char| #[trigger] has_link(before, node, y);
                    assert(before.contains_key(node));
                }
            }
            None
        },
        Some(row) => {
            let mut row = row;
            if row.len() == 0 {
                proof {
                    row.lemma_keys();
                    assert(before.contains_key(node));
                    assert(before[node] == row@);
                    if rows_full(before) {
                        assert(before[node].dom().len() > 0);
                    }
                    if exists|y: char| #[trigger] has_link(before, node, y) {
                        let y = choose|y: char| #[trigger] has_link(before, node, y);
                        assert(row@.dom().contains(y));
                    }
                }
                return None;
            }
            let n = row.key_at(0);
            let _ = row.remove(&n);
            let ghost row_left = row@;
            if !row.is_empty() {
                let _ = rows.insert(node, row);
            }
            proof {
                row.lemma_keys();
                assert forall|x: char, y: char| #[trigger] has_link(rows_view(*rows), x, y)
                    <==> has_link(before, x, y) && !(x == node && y == n) by {
                    if x == node {
                        assert(row_left == before[node].remove(n));
                        if has_link(rows_view(*rows), x, y) {
                            assert(rows@[x]@.contains_key(y));
                        }
                        if has_link(before, x, y) && y != n {
                            assert(row_left.contains_key(y));
                            assert(row_left.dom().len() > 0);
                        }
                    }
                }
                if rows_full(before) {
                    assert forall|k: char| #[trigger] rows_view(*rows).contains_key(k) implies rows_view(*rows)[k].dom().len() > 0 by {
                        if k != node {
                            assert(before.contains_key(k));
                            assert(rows_view(*rows)[k] == before[k]);
                        } else {
                            assert(rows_view(*rows)[k] == row_left);
                        }
                    }
                    assert(rows_full(rows_view(*rows)));
                }
            }
            if both_ways {
                let ghost mid = rows_view(*rows);
                match rows.remove(&n) {
                    None => {
                        proof {
                            if symmetric(before) && !has_link(before, node, node) {
                                assert(has_link(before, node, n));
                                assert(has_link(before, n, node));
                                assert(n != node);
                                assert(has_link(mid, n, node));
                            }
                            if rows_full(mid) {
                                assert forall|k: char| #[trigger] rows_view(*rows).contains_key(k) implies rows_view(*rows)[k].dom().len() > 0 by {
                                    assert(mid.contains_key(k));
                                    assert(rows_view(*rows)[k] == mid[k]);
                                }
                            }
                        }
                        return None;
                    },
                    Some(back) => {
                        let mut back = back;
                        let _ = back.remove(&node);
                        let ghost back_left = back@;
                        if !back.is_empty() {
                            let _ = rows.insert(n, back);
                        }
                        proof {
                            back.lemma_keys();
                            assert forall|x: char, y: char| #[trigger] has_link(rows_view(*rows), x, y)
                                <==> has_link(mid, x, y) && !(x == n && y == node) by {
                                if x == n {
                                    assert(back_left == mid[n].remove(node));
                                    if has_link(rows_view(*rows), x, y) {
                                        assert(rows@[x]@.contains_key(y));
                                    }
                                    if has_link(mid, x, y) && y != node {
                                        assert(back_left.contains_key(y));
                                        assert(back_left.dom().len() > 0);
                                    }
                                }
                            }
                            if rows_full(mid) {
                                assert forall|k: char| #[trigger] rows_view(*rows).contains_key(k) implies rows_view(*rows)[k].dom().len() > 0 by {
                                    if k != n {
                                        assert(mid.contains_key(k));
                                        assert(rows_view(*rows)[k] == mid[k]);
                                    } else {
                                        assert(rows_view(*rows)[k] == back_left);
                                    }
                                }
                                assert(rows_full(rows_view(*rows)));
                            }
                        }
                    },
                }
            }
            proof {
                if rows_full(before) {
                    assert(rows_full(rows_view(*rows)));
                }
            }
            Some(n)
        },
    }
}


/// A name that no node of `m` has, if there is one.
fn fresh_name(m: &KeyMap<char, KeyMap<char, i8>>) -> (r: Option<char>)
    requires
        m.wf(),
    ensures
        match r {
            Some(c) => !m@.contains_key(c),
            None => forall|c: char| #[trigger] m@.contains_key(c),
        },
{
    let mut v: u32 = 0;
    while v < 0x110000
        invariant
            m.wf(),
            v <= 0x110000,
            forall|c: char| (c as u32) < v ==> #[trigger] m@.contains_key(c),
        decreases 0x110000 - v,
    {
        let r = crate::demo::names::char_from_u32(v);
        match r {
            Some(c) => {
                if !m.contains_key(&c) {
                    return Some(c);
                }
            },
            None => {},
        }
        proof {
            assert forall|c: char| (c as u32) < v + 1 implies #[trigger] m@.contains_key(c) by {
                if (c as u32) == v {
                    vstd::utf8::char_is_scalar(c);
                    assert(crate::demo::names::scalar_value(v));
                    let d = r.unwrap();
                    vstd::utf8::char_u32_cast(c, v);
                    vstd::utf8::char_u32_cast(d, v);
                }
            }
        }
        v = v + 1;
    }
    proof {
        assert forall|c: char| #[trigger] m@.contains_key(c) by {
            vstd::utf8::char_is_scalar(c);
        }
    }
    None
}

/// When exactly two nodes stand out, no other node does: each other node is balanced.
proof fn lemma_only_two<E: LayoutEngine>(g: &Graph<E>, n1: char, n2: char, x: char)
    requires
        g.wf(),
        unbalanced_count(g) == 2,
        n1 != n2,
        g.adj().contains_key(n1),
        g.adj().contains_key(n2),
        stands_out(g, n1),
        stands_out(g, n2),
        g.adj().contains_key(x),
        x != n1,
        x != n2,
    ensures
        !stands_out(g, x),
        degree_gap(g.adj(), x, x, x, is_directed(g.adj())),
{
    broadcast use vstd::seq_lib::group_to_multiset_ensures;
    broadcast use vstd::multiset::group_multiset_axioms;
    broadcast use vstd::multiset::group_multiset_properties;
    let d = is_directed(g.adj());
    let m = g.degree_seq().to_multiset();
    let u = unbalanced_of(d, m);
    let e1 = (n1, g.degrees(n1));
    let e2 = (n2, g.degrees(n2));
    let e3 = (x, g.degrees(x));
    g.lemma_degree_listed(n1);
    g.lemma_degree_listed(n2);
    g.lemma_degree_listed(x);
    g.lemma_degrees_sets(x);
    if stands_out(g, x) {
        assert(m.count(e1) > 0);
        assert(m.count(e2) > 0);
        assert(m.count(e3) > 0);
        assert(u.count(e1) > 0);
        assert(u.count(e2) > 0);
        assert(u.count(e3) > 0);
        let u1 = u.remove(e1);
        assert(u1.count(e2) > 0);
        assert(u1.count(e3) > 0);
        let u2 = u1.remove(e2);
        assert(u2.count(e3) > 0);
        assert(u1.len() == u.len() - 1);
        assert(u2.len() == u1.len() - 1);
        assert(u2.len() >= 1);
        assert(false);
    }
}

/// `adj` with a new node `x` linked so that a walk from `e` through `x` to `s` closes: both ways
/// with `s` and with `e` when undirected; from `e` to `x` and from `x` to `s` when directed.
pub open spec fn augmented(adj: Adjacency, x: char, s: char, e: char, directed: bool) -> Adjacency {
    if directed {
        with_pair(with_pair(adj.insert(x, Map::<char, i8>::empty()), e, x, false, 0), x, s, false, 0)
    } else {
        with_pair(with_pair(adj.insert(x, Map::<char, i8>::empty()), x, s, true, 0), x, e, true, 0)
    }
}

/// Whether the step from `a` to `b` is one of the links that `augmented` adds.
pub open spec fn added_step(x: char, s: char, e: char, directed: bool, a: char, b: char) -> bool {
    if directed {
        (a == e && b == x) || (a == x && b == s)
    } else {
        (a == x && (b == s || b == e)) || (b == x && (a == s || a == e))
    }
}

/// The links of `augmented`: those of `adj` and the added ones.
proof fn lemma_augmented_links(adj: Adjacency, x: char, s: char, e: char, directed: bool)
    requires
        crate::graph::adjacency_wf(adj),
        adj.contains_key(s),
        adj.contains_key(e),
        !adj.contains_key(x),
    ensures
        forall|a: char, b: char| #[trigger] has_link(augmented(adj, x, s, e, directed), a, b)
            <==> has_link(adj, a, b) || added_step(x, s, e, directed, a, b),
        forall|k: char| #[trigger] augmented(adj, x, s, e, directed).contains_key(k) <==> adj.contains_key(k) || k == x,
{
    let aug = augmented(adj, x, s, e, directed);
    assert forall|a: char, b: char| #[trigger] has_link(adj, a, b) implies a != x && b != x by {}
}

/// A path of `a` is a path of any `b` that holds the links of `a`.
proof fn lemma_reach_wider(a: Adjacency, b: Adjacency, u: char, v: char)
    requires
        reachable(a, u, v),
        forall|p: char, q: char| #[trigger] has_link(a, p, q) ==> has_link(b, p, q),
    ensures
        reachable(b, u, v),
{
    let p = choose|p: Seq<char>| #[trigger] linked_path(a, p) && p.len() > 0 && p[0] == u && p.last() == v;
    assert forall|i: int| 0 <= i < p.len() - 1 implies #[trigger] has_link(b, p[i], p[i + 1]) by {
        assert(has_link(a, p[i], p[i + 1]));
    }
    assert(linked_path(b, p));
}

/// `augmented` keeps a strongly connected graph strongly connected.
proof fn lemma_augmented_connected(adj: Adjacency, x: char, s: char, e: char, directed: bool)
    requires
        crate::graph::adjacency_wf(adj),
        strongly_connected(adj),
        adj.contains_key(s),
        adj.contains_key(e),
        !adj.contains_key(x),
    ensures
        strongly_connected(augmented(adj, x, s, e, directed)),
{
    let aug = augmented(adj, x, s, e, directed);
    lemma_augmented_links(adj, x, s, e, directed);
    assert(has_link(aug, e, x));
    assert(has_link(aug, x, s));
    assert forall|u: char, v: char| aug.contains_key(u) && aug.contains_key(v) implies #[trigger] reachable(aug, u, v) by {
        if u != x && v != x {
            assert(reachable(adj, u, v));
            lemma_reach_wider(adj, aug, u, v);
        } else if u == x && v == x {
            lemma_reach_self(aug, x);
        } else if u == x {
            assert(reachable(adj, s, v));
            lemma_reach_wider(adj, aug, s, v);
            lemma_reach_prepend(aug, x, s, v);
        } else {
            assert(reachable(adj, u, e));
            lemma_reach_wider(adj, aug, u, e);
            lemma_reach_self(aug, x);
            lemma_reach_prepend(aug, e, x, x);
            lemma_reach_trans(aug, u, e, x);
        }
    }
}

/// `augmented` leaves every node balanced when, in `adj`, only `s` and `e` were not: `s` with
/// one link more out than in and `e` one more in than out (directed), or each with an odd
/// number of links (undirected).
proof fn lemma_augmented_balanced(adj: Adjacency, x: char, s: char, e: char, directed: bool, t: char)
    requires
        crate::graph::adjacency_wf(adj),
        adj.contains_key(s),
        adj.contains_key(e),
        !adj.contains_key(x),
        s != e,
        forall|k: char| #[trigger] adj.contains_key(k) ==> successors(adj, k).finite() && predecessors(adj, k).finite(),
        directed ==> successors(adj, s).len() == predecessors(adj, s).len() + 1
            && predecessors(adj, e).len() == successors(adj, e).len() + 1,
        !directed ==> successors(adj, s).len() % 2 == 1 && successors(adj, e).len() % 2 == 1,
        forall|k: char| #[trigger] adj.contains_key(k) && k != s && k != e ==> degree_gap(adj, k, k, k, directed),
    ensures
        walk_balanced(augmented(adj, x, s, e, directed), t, t, directed),
{
    let aug = augmented(adj, x, s, e, directed);
    lemma_augmented_links(adj, x, s, e, directed);
    assert forall|k: char| #[trigger] degree_gap(aug, k, t, t, directed) by {
        if !aug.contains_key(k) {
            assert(successors(aug, k) =~= Set::<char>::empty());
            assert forall|y: char| !(#[trigger] has_link(aug, y, k)) by {
                if has_link(aug, y, k) {
                    if has_link(adj, y, k) {
                        assert(adj.contains_key(k));
                    }
                }
            }
            assert(predecessors(aug, k) =~= Set::<char>::empty());
        } else if k == x {
            if directed {
                assert(successors(aug, k) =~= Set::<char>::empty().insert(s)) by {
                    assert forall|y: char| #[trigger] has_link(adj, x, y) implies false by {}
                }
                assert(predecessors(aug, k) =~= Set::<char>::empty().insert(e)) by {
                    assert forall|y: char| #[trigger] has_link(adj, y, x) implies false by {
                        assert(adj.contains_key(x));
                    }
                }
            } else {
                assert(successors(aug, k) =~= Set::<char>::empty().insert(s).insert(e)) by {
                    assert forall|y: char| #[trigger] has_link(adj, x, y) implies false by {}
                }
                assert(Set::<char>::empty().insert(s).len() == 1);
            }
        } else if k == s {
            if directed {
                assert(successors(aug, k) =~= successors(adj, k));
                assert(predecessors(aug, k) =~= predecessors(adj, k).insert(x));
                assert(!predecessors(adj, k).contains(x));
            } else {
                assert(successors(aug, k) =~= successors(adj, k).insert(x));
                assert(!successors(adj, k).contains(x));
            }
        } else if k == e {
            if directed {
                assert(successors(aug, k) =~= successors(adj, k).insert(x));
                assert(!successors(adj, k).contains(x));
                assert(predecessors(aug, k) =~= predecessors(adj, k));
            } else {
                assert(successors(aug, k) =~= successors(adj, k).insert(x));
                assert(!successors(adj, k).contains(x));
            }
        } else {
            assert(adj.contains_key(k));
            assert(successors(aug, k) =~= successors(adj, k));
            assert(predecessors(aug, k) =~= predecessors(adj, k));
            assert(degree_gap(adj, k, k, k, directed));
        }
    }
}

/// A round of `augmented` from its new node `x` whose steps take each link exactly once, cut
/// at `x`: a walk that takes each link of `adj` exactly once, from `s` to `e` (directed), or
/// from one of them to the other (undirected).
proof fn lemma_euler_cut(adj: Adjacency, x: char, s: char, e: char, directed: bool, rc: Seq<char>)
    requires
        crate::graph::adjacency_wf(adj),
        adj.contains_key(s),
        adj.contains_key(e),
        !adj.contains_key(x),
        s != e,
        rc.len() > 0,
        rc[0] == x,
        once(round_steps(rc), !directed),
        forall|j: int| 0 <= j < round_steps(rc).len()
            ==> has_link(augmented(adj, x, s, e, directed), (#[trigger] round_steps(rc)[j]).0, round_steps(rc)[j].1),
        forall|a: char, b: char| #[trigger] has_link(augmented(adj, x, s, e, directed), a, b) ==> taken(round_steps(rc), a, b, !directed),
    ensures
        euler_walk(adj, rc.drop_first(), !directed),
        directed ==> rc.drop_first()[0] == s && rc.drop_first().last() == e,
        !directed ==> (rc.drop_first()[0] == s && rc.drop_first().last() == e)
            || (rc.drop_first()[0] == e && rc.drop_first().last() == s),
{
    reveal(taken);
    let aug = augmented(adj, x, s, e, directed);
    let both = !directed;
    lemma_augmented_links(adj, x, s, e, directed);
    let rs = round_steps(rc);
    let n = rc.len() as int;
    let path = rc.drop_first();
    assert(rs[0] == (rc[0], if 1 < n { rc[1] } else { rc[0] }));
    if n == 1 {
        assert(has_link(aug, x, x));
        assert(false);
    }
    assert(rs[0] == (x, rc[1]));
    assert(rs[n - 1] == (rc[n - 1], x));
    assert(has_link(aug, x, rc[1]));
    assert(has_link(aug, rc[n - 1], x));
    assert(!has_link(adj, x, rc[1]));
    assert(!has_link(adj, rc[n - 1], x));
    // the middle steps do not touch `x`
    assert forall|k: int| 1 <= k < n - 1 implies #[trigger] rs[k].0 != x && rs[k].1 != x by {
        assert(has_link(aug, rs[k].0, rs[k].1));
        if rs[k].0 == x || rs[k].1 == x {
            assert(!has_link(adj, rs[k].0, rs[k].1));
            assert(added_step(x, s, e, directed, rs[k].0, rs[k].1));
            if directed {
                if rs[k].0 == x {
                    assert(takes(rs[0], rs[k].0, rs[k].1, both));
                } else {
                    assert(takes(rs[k], rs[n - 1].0, rs[n - 1].1, both));
                }
            } else {
                let other = if rs[k].0 == x { rs[k].1 } else { rs[k].0 };
                if other == rc[1] {
                    assert(takes(rs[0], rs[k].0, rs[k].1, both));
                } else if other == rc[n - 1] {
                    assert(takes(rs[k], rs[n - 1].0, rs[n - 1].1, both));
                } else {
                    assert(rc[1] == s || rc[1] == e);
                    assert(rc[n - 1] == s || rc[n - 1] == e);
                    if rc[1] == rc[n - 1] {
                        assert(takes(rs[0], rs[n - 1].0, rs[n - 1].1, both));
                    }
                    assert(false);
                }
            }
        }
    }
    assert forall|k: int| 0 <= k < steps(path).len() implies #[trigger] steps(path)[k] == rs[k + 1] by {
        assert(path[k] == rc[k + 1]);
        assert(path[k + 1] == rc[k + 2]);
    }
    assert forall|k: int| 0 <= k < path.len() - 1 implies #[trigger] has_link(adj, path[k], path[k + 1]) by {
        assert(steps(path)[k] == rs[k + 1]);
        assert(has_link(aug, rs[k + 1].0, rs[k + 1].1));
        assert(rs[k + 1].0 != x && rs[k + 1].1 != x);
    }
    assert forall|i: int, j: int| 0 <= i < j < steps(path).len() implies !takes(#[trigger] steps(path)[i], (#[trigger] steps(path)[j]).0, steps(path)[j].1, both) by {
        assert(steps(path)[i] == rs[i + 1]);
        assert(steps(path)[j] == rs[j + 1]);
    }
    assert forall|a: char, b: char| #[trigger] has_link(adj, a, b) implies taken(steps(path), a, b, both) by {
        assert(has_link(aug, a, b));
        let j = choose|j: int| 0 <= j < rs.len() && #[trigger] takes(rs[j], a, b, both);
        assert(a != x && b != x);
        if j == 0 || j == n - 1 {
            assert(false);
        }
        assert(steps(path)[j - 1] == rs[j]);
        assert(takes(steps(path)[j - 1], a, b, both));
    }
    if !directed {
        if rc[1] == rc[n - 1] {
            assert(takes(rs[0], rs[n - 1].0, rs[n - 1].1, both));
        }
    }
    assert(path[0] == rc[1]);
    assert(path.last() == rc[n - 1]);
}

/// Taking the new node out of `augmented` gives `adj` back.
proof fn lemma_augmented_removed(adj: Adjacency, x: char, s: char, e: char, directed: bool)
    requires
        crate::graph::adjacency_wf(adj),
        adj.contains_key(s),
        adj.contains_key(e),
        !adj.contains_key(x),
    ensures
        without_node(augmented(adj, x, s, e, directed), x) == adj,
{
    let t = without_node(augmented(adj, x, s, e, directed), x);
    lemma_augmented_links(adj, x, s, e, directed);
    assert forall|k: char| #[trigger] t.contains_key(k) implies t[k] =~= adj[k] by {
        assert forall|y: char| #[trigger] t[k].contains_key(y) <==> adj[k].contains_key(y) by {
            assert(has_link(augmented(adj, x, s, e, directed), k, y) <==> has_link(adj, k, y) || added_step(x, s, e, directed, k, y));
            if adj[k].contains_key(y) {
                assert(has_link(adj, k, y));
            }
        }
    }
    assert(t =~= adj);
}

/// Two entries of the degree sequence that stand out are the entries of two distinct nodes.
proof fn lemma_odd_distinct<E: LayoutEngine>(g: &Graph<E>, odd: Seq<(char, (usize, usize))>)
    requires
        g.wf(),
        odd.len() == 2,
        odd.to_multiset() == unbalanced_of(is_directed(g.adj()), g.degree_seq().to_multiset()),
        forall|j: int| 0 <= j < odd.len() ==> (#[trigger] odd[j]).1 == g.degrees(odd[j].0),
    ensures
        odd[0].0 != odd[1].0,
{
    broadcast use vstd::seq_lib::group_to_multiset_ensures;
    broadcast use vstd::multiset::group_multiset_axioms;
    if odd[0].0 == odd[1].0 {
        let e = odd[0];
        assert(odd[1] == e);
        assert(odd =~= Seq::<(char, (usize, usize))>::empty().push(e).push(e));
        assert(odd.to_multiset().count(e) == 2);
        g.lemma_degree_seq_distinct();
        g.degree_seq().lemma_multiset_has_no_duplicates();
        let m = g.degree_seq().to_multiset();
        assert(m.count(e) <= 1) by {
            if m.count(e) > 0 {
                assert(m.contains(e));
            }
        }
        assert(unbalanced_of(is_directed(g.adj()), m).count(e) <= m.count(e));
    }
}

/// With the new node of `augmented` in the graph, the search can go on from any node of the
/// graph: every node is balanced, links go both ways when undirected, every node has a link,
/// and every node can be reached from every other one.
proof fn lemma_fresh_search<E: LayoutEngine>(g: &Graph<E>, x: char, s: char, e: char, directed: bool, start: char, aug: Adjacency)
    requires
        g.wf(),
        strongly_connected(g.adj()),
        unbalanced_count(g) == 2,
        directed == is_directed(g.adj()),
        g.adj().contains_key(s),
        g.adj().contains_key(e),
        g.adj().contains_key(start),
        !g.adj().contains_key(x),
        s != e,
        stands_out(g, s),
        stands_out(g, e),
        directed ==> successors(g.adj(), s).len() == predecessors(g.adj(), s).len() + 1
            && predecessors(g.adj(), e).len() == successors(g.adj(), e).len() + 1,
        aug == augmented(g.adj(), x, s, e, directed),
        rows_finite(aug),
    ensures
        strongly_connected(aug),
        search_ok(aug, start, start, directed),
        exists|y: char| #[trigger] has_link(aug, start, y),
        aug.dom().len() > 0,
{
    let adj = g.adj();
    g.lemma_adjacency();
    lemma_augmented_links(adj, x, s, e, directed);
    lemma_augmented_connected(adj, x, s, e, directed);
    g.lemma_degrees_sets(s);
    g.lemma_degrees_sets(e);
    assert forall|k: char| #[trigger] adj.contains_key(k) implies successors(adj, k).finite() && predecessors(adj, k).finite() by {
        g.lemma_degrees_sets(k);
    }
    assert forall|k: char| #[trigger] adj.contains_key(k) && k != s && k != e implies degree_gap(adj, k, k, k, directed) by {
        lemma_only_two(g, s, e, k);
    }
    lemma_augmented_balanced(adj, x, s, e, directed, start);
    if !directed {
        assert forall|a: char, b: char| #[trigger] has_link(aug, a, b) implies has_link(aug, b, a) by {
            if has_link(adj, a, b) && !has_link(adj, b, a) {
                assert(is_directed(adj));
            }
        }
    }
    assert(has_link(aug, x, s));
    assert forall|k: char| #[trigger] aug.contains_key(k) implies aug[k].dom().len() > 0 by {
        lemma_every_node_links(aug, k);
        let y = choose|y: char| #[trigger] has_link(aug, k, y);
        assert(aug[k].dom().contains(y));
    }
    lemma_every_node_links(aug, start);
    assert(aug.dom().contains(start));
}

/// Whether `g` has an Euler trail that is not a cycle, and a name is left for a node: two
/// nodes stand out and, when directed, one of them has one link more out than in and the
/// other one link more in than out.
pub open spec fn trail_promised<E: LayoutEngine>(g: &Graph<E>) -> bool {
    &&& unbalanced_count(g) == 2
    &&& exists|c: char| !g.adj().contains_key(c)
    &&& is_directed(g.adj()) ==> exists|a: char, b: char| g.adj().contains_key(a) && g.adj().contains_key(b)
        && #[trigger] successors(g.adj(), a).len() == predecessors(g.adj(), a).len() + 1
        && #[trigger] predecessors(g.adj(), b).len() == successors(g.adj(), b).len() + 1
}

/// The number of nodes of `g` that stand out.
pub open spec fn unbalanced_count<E: LayoutEngine>(g: &Graph<E>) -> nat {
    unbalanced_of(is_directed(g.adj()), g.degree_seq().to_multiset()).len()
}

/// Whether node `x` of `g` stands out.
pub open spec fn stands_out<E: LayoutEngine>(g: &Graph<E>, x: char) -> bool {
    unbalanced(is_directed(g.adj()), (x, g.degrees(x)))
}


/// The first position of `x` in `v`, if any.
fn position(v: &Vec<char>, x: char) -> (r: Option<usize>)
    ensures
        match r {
            Some(i) => i < v@.len() && v@[i as int] == x,
            None => !v@.contains(x),
        },
{
    let mut i: usize = 0;
    while i < v.len()
        invariant
            i <= v@.len(),
            forall|j: int| 0 <= j < i ==> v@[j] != x,
        decreases v@.len() - i,
    {
        if v[i] == x {
            return Some(i);
        }
        i = i + 1;
    }
    None
}

/// The first node of `v` that still has a row in `rows`, if any.
fn first_with_row(v: &Vec<char>, rows: &KeyMap<char, KeyMap<char, i8>>) -> (r: Option<char>)
    requires
        rows.wf(),
    ensures
        match r {
            Some(n) => v@.contains(n) && rows@.contains_key(n),
            None => forall|j: int| 0 <= j < v@.len() ==> !rows@.contains_key(#[trigger] v@[j]),
        },
{
    let mut i: usize = 0;
    while i < v.len()
        invariant
            i <= v@.len(),
            rows.wf(),
            forall|j: int| 0 <= j < i ==> !rows@.contains_key(#[trigger] v@[j]),
        decreases v@.len() - i,
    {
        if rows.contains_key(&v[i]) {
            assert(v@.contains(v@[i as int]));
            return Some(v[i]);
        }
        i = i + 1;
    }
    None
}


pub struct Eulerian;

impl Eulerian {
    /// Returns an Eulerian path or cycle, if there is one (Hierholzer), with the graph where
    /// each round of the search is colored in turn and the path in the color after.
    ///
    /// The path takes each link of the graph exactly once (in an undirected graph, a link and
    /// the link back count as one). When all nodes are balanced (as many links leave each
    /// node as come in; in an undirected graph, an even number of links touch each node) and
    /// the graph has a link, the path is a cycle: it ends where it starts. When two nodes stand
    /// out (one with a link more out than in and one with a link more in than out, when
    /// directed), a new node, linked to both so that a cycle can close through it, joins the
    /// graph for the search and leaves it at the end: the path goes from one of the two nodes
    /// to the other (from the one with more links out, when directed). Otherwise there is no
    /// path: the list is empty.
    #[verifier::spinoff_prover]
    #[verifier::rlimit(100)]
    pub fn hierholzer<E: LayoutEngine>(g: &Graph<E>) -> (r: (Graph<E>, Vec<char>))
        requires
            g.wf(),
            g.describable(),
            exists|k: char| g.adj().contains_key(k),
            strongly_connected(g.adj()),
        ensures
            r.0.wf(),
            r.0.adj() == g.adj(),
            unbalanced_count(g) != 0 && unbalanced_count(g) != 2 ==> r.1@.len() == 0,
            unbalanced_count(g) == 0 && (exists|x: char, y: char| #[trigger] has_link(g.adj(), x, y)) ==> r.1@.len() > 0,
            unbalanced_count(g) == 0 && r.1@.len() > 0 ==> {
                &&& euler_walk(g.adj(), r.1@, !is_directed(g.adj()))
                &&& r.1@[0] == r.1@.last()
            },
            unbalanced_count(g) == 2 && r.1@.len() > 0 ==> {
                &&& euler_walk(g.adj(), r.1@, !is_directed(g.adj()))
                &&& stands_out(g, r.1@[0])
                &&& stands_out(g, r.1@.last())
                &&& r.1@[0] != r.1@.last()
            },
            unbalanced_count(g) == 2 && is_directed(g.adj()) && r.1@.len() > 0 ==> {
                &&& successors(g.adj(), r.1@[0]).len() == predecessors(g.adj(), r.1@[0]).len() + 1
                &&& predecessors(g.adj(), r.1@.last()).len() == successors(g.adj(), r.1@.last()).len() + 1
            },
            trail_promised(g) ==> r.1@.len() > 0,
    {
        broadcast use vstd::seq_lib::group_to_multiset_ensures;
        let directed = g.directed();
        let mut eg = g.copied();
        let s = g.sequence();
        let odd = unbalanced_nodes(&s, directed);
        let ghost count = unbalanced_count(g);
        proof {
            assert(odd@.len() == odd@.to_multiset().len());
            assert(odd@.len() == unbalanced_count(g));
            assert forall|j: int| 0 <= j < odd@.len() implies g.adj().contains_key((#[trigger] odd@[j]).0)
                && odd@[j].1 == g.degrees(odd@[j].0) && stands_out(g, odd@[j].0) by {
                assert(s@.contains(odd@[j]));
                assert(s@.to_multiset().count(odd@[j]) > 0);
                assert(g.degree_seq().contains(odd@[j]));
                g.lemma_degree_entry(odd@[j]);
            }
            g.lemma_adjacency();
        }
        let mut fresh: Option<char> = None;
        let mut sn: char = 'a';
        let mut en: char = 'b';
        if odd.len() == 2 {
            let (n1, d1) = odd[0];
            let (n2, d2) = odd[1];
            proof {
                lemma_odd_distinct(g, odd@);
                g.lemma_degrees_sets(n1);
                g.lemma_degrees_sets(n2);
            }
            if directed {
                if d1.0 as u128 == d1.1 as u128 + 1 && d2.1 as u128 == d2.0 as u128 + 1 {
                    sn = n1;
                    en = n2;
                } else if d2.0 as u128 == d2.1 as u128 + 1 && d1.1 as u128 == d1.0 as u128 + 1 {
                    sn = n2;
                    en = n1;
                } else {
                    proof {
                        if (exists|a: char, b: char| g.adj().contains_key(a) && g.adj().contains_key(b)
                            && #[trigger] successors(g.adj(), a).len() == predecessors(g.adj(), a).len() + 1
                            && #[trigger] predecessors(g.adj(), b).len() == successors(g.adj(), b).len() + 1) {
                            let (a, b) = choose|a: char, b: char| g.adj().contains_key(a) && g.adj().contains_key(b)
                                && #[trigger] successors(g.adj(), a).len() == predecessors(g.adj(), a).len() + 1
                                && #[trigger] predecessors(g.adj(), b).len() == successors(g.adj(), b).len() + 1;
                            g.lemma_degrees_sets(a);
                            g.lemma_degrees_sets(b);
                            if a != n1 && a != n2 {
                                lemma_only_two(g, n1, n2, a);
                            }
                            if b != n1 && b != n2 {
                                lemma_only_two(g, n1, n2, b);
                            }
                        }
                    }
                    return (eg, Vec::new());
                }
            } else {
                sn = n1;
                en = n2;
            }
            let m = g.adjacency_list();
            match fresh_name(&m) {
                None => {
                    return (eg, Vec::new());
                },
                Some(x) => {
                    proof {
                        assert(!g.adj().contains_key(x));
                    }
                    eg.add_node(x, None);
                    if directed {
                        eg.add_link(en, x, false, 0);
                        eg.add_link(x, sn, false, 0);
                        eg.color_link(en, x, Color::disabled());
                        eg.color_link(x, sn, Color::disabled());
                    } else {
                        eg.add_link(x, sn, true, 0);
                        eg.add_link(x, en, true, 0);
                        eg.color_link(x, sn, Color::disabled());
                        eg.color_link(x, en, Color::disabled());
                    }
                    fresh = Some(x);
                },
            }
        } else if odd.len() != 0 {
            return (eg, Vec::new());
        }
        let ghost aug = eg.adj();
        let ghost linked = exists|x: char, y: char| #[trigger] has_link(g.adj(), x, y);
        let ghost ok = (count == 0 && linked) || fresh is Some;
        let ghost promised = trail_promised(g);
        proof {
            if promised && fresh is None {
                let c = choose|c: char| !g.adj().contains_key(c);
                assert(odd@.len() == 2);
            }
            match fresh {
                Some(x) => {
                    assert(aug == augmented(g.adj(), x, sn, en, directed));
                    assert(stands_out(g, sn) && stands_out(g, en) && sn != en);
                },
                None => {
                    assert(aug == g.adj());
                },
            }
        }
        let mut adj = eg.adjacency_list();
        let mut colors = ColorCycle::new();
        let nodes = g.nodes();
        proof {
            let k = choose|k: char| g.adj().contains_key(k);
            assert(nodes@.contains(k));
        }
        let mut start = nodes[0];
        let mut cycle: Vec<char> = Vec::new();
        proof {
            assert(round_steps(cycle@) =~= Seq::<(char, char)>::empty());
            let both = !directed;
            assert forall|x: char, y: char| !(#[trigger] taken(round_steps(cycle@), x, y, both)) by {
                reveal(taken);
            }
            lemma_rows_finite(adj);
            lemma_link_pairs_finite(rows_view(adj));
            eg.lemma_adjacency();
            assert(g.adj().contains_key(nodes@[0]));
            assert(rows_view(adj).dom() =~= adj@.dom());
            if count == 0 && linked {
                lemma_search_start(g, start);
            }
            match fresh {
                Some(x) => {
                    lemma_fresh_search(g, x, sn, en, directed, start, aug);
                    assert(rows_view(adj) == aug);
                },
                None => {},
            }
        }
        while !adj.is_empty()
            invariant
                eg.wf(),
                eg.adj() == aug,
                rows_wf(adj),
                rest(aug, rows_view(adj), round_steps(cycle@), !directed),
                once(round_steps(cycle@), !directed),
                forall|x: char, y: char| #[trigger] has_link(rows_view(adj), x, y) ==> has_link(aug, x, y),
                cycle@.len() == 0 || is_round(aug, cycle@),
                cycle@.len() > 0 ==> cycle@.contains(start),
                colors.wf(),
                aug.contains_key(start),
                ok == ((count == 0 && linked) || fresh is Some),
                fresh is None ==> aug == g.adj(),
                promised ==> fresh is Some,
                promised == trail_promised(g),
                count == unbalanced_count(g),
                linked == exists|x: char, y: char| #[trigger] has_link(g.adj(), x, y),
                directed == is_directed(g.adj()),
                crate::graph::adjacency_wf(aug),
                ok ==> strongly_connected(aug),
                ok ==> search_ok(rows_view(adj), start, start, directed),
                ok ==> (adj@.dom().len() > 0 ==> exists|y: char| #[trigger] has_link(rows_view(adj), start, y)),
                ok ==> cycle@.len() > 0 || adj@.dom().len() > 0,
                link_pairs(rows_view(adj)).finite(),
            decreases link_pairs(rows_view(adj)).len(),
        {
            let color = colors.next_color();
            let ghost n0 = link_pairs(rows_view(adj)).len();
            let mut c: Vec<char> = Vec::new();
            let mut next: char = start;
            let mut closed: bool = false;
            proof {
                assert(round_steps(cycle@) + walk_steps(c@, next) =~= round_steps(cycle@));
            }
            while !closed
                invariant
                    eg.wf(),
                    eg.adj() == aug,
                    rows_wf(adj),
                    rest(aug, rows_view(adj), round_steps(cycle@) + walk_steps(c@, next), !directed),
                    once(round_steps(cycle@) + walk_steps(c@, next), !directed),
                    forall|x: char, y: char| #[trigger] has_link(rows_view(adj), x, y) ==> has_link(aug, x, y),
                    c@.len() == 0 ==> next == start,
                    c@.len() > 0 ==> c@[0] == start && is_walk(aug, c@) && has_link(aug, c@.last(), next),
                    c@.len() > 0 ==> (closed <==> next == start),
                    closed ==> c@.len() > 0,
                    ok == ((count == 0 && linked) || fresh is Some),
                    fresh is None ==> aug == g.adj(),
                    promised ==> fresh is Some,
                promised == trail_promised(g),
                    count == unbalanced_count(g),
                    linked == exists|x: char, y: char| #[trigger] has_link(g.adj(), x, y),
                    directed == is_directed(g.adj()),
                    crate::graph::adjacency_wf(aug),
                    ok ==> strongly_connected(aug),
                    ok ==> search_ok(rows_view(adj), start, next, directed),
                    ok ==> (c@.len() == 0 ==> exists|y: char| #[trigger] has_link(rows_view(adj), start, y)),
                    link_pairs(rows_view(adj)).finite(),
                    link_pairs(rows_view(adj)).len() + c@.len() <= n0,
                decreases link_pairs(rows_view(adj)).len(),
            {
                let ghost c0 = c@;
                let ghost old_next = next;
                let ghost r0 = rows_view(adj);
                proof {
                    lemma_rows_finite(adj);
                    if ok {
                        if c0.len() > 0 {
                            lemma_gap_out(r0, start, next, directed);
                        }
                        assert(!has_link(r0, next, next));
                    }
                }
                c.push(next);
                let prev = next;
                match take_first(&mut adj, prev, !directed) {
                    None => {
                        return (eg, Vec::new());
                    },
                    Some(n) => {
                        next = n;
                    },
                }
                proof {
                    let ss0 = round_steps(cycle@) + walk_steps(c0, old_next);
                    lemma_take_step(aug, r0, rows_view(adj), ss0, !directed, prev, next);
                    assert(walk_steps(c@, next) =~= walk_steps(c0, old_next).push((old_next, next)));
                    assert(round_steps(cycle@) + walk_steps(c@, next) =~= ss0.push((prev, next)));
                    assert(has_link(aug, prev, next));
                    assert(prev != next);
                    lemma_fewer_links(r0, rows_view(adj), prev, next);
                    if ok {
                        lemma_gap_step(r0, rows_view(adj), start, prev, next, directed);
                    }
                    assert forall|k: int| 0 <= k < c@.len() - 1 implies #[trigger] has_link(aug, c@[k], c@[k + 1]) by {
                        if k < c0.len() - 1 {
                            assert(c@[k] == c0[k] && c@[k + 1] == c0[k + 1]);
                            assert(has_link(aug, c0[k], c0[k + 1]));
                        } else {
                            assert(c@[k] == c0.last() && c@[k + 1] == old_next);
                        }
                    }
                }
                eg.color_link(prev, next, color);
                closed = next == start;
            }
            proof {
                assert(is_round(aug, c@));
                assert(link_pairs(rows_view(adj)).len() < n0);
            }
            assert(walk_steps(c@, next) == round_steps(c@));
            if cycle.len() == 0 {
                proof {
                    assert(round_steps(cycle@) + round_steps(c@) =~= round_steps(c@));
                    assert(c@.contains(c@[0]));
                }
                cycle = c;
            } else {
                match position(&cycle, start) {
                    None => {
                        return (eg, Vec::new());
                    },
                    Some(p) => {
                        let ghost c1 = c@;
                        let ghost cy = cycle@;
                        let mut rc = rotated(&cycle, p);
                        proof {
                            lemma_rotation_round(aug, cycle@, p as int);
                            lemma_join_rounds(aug, rc@, c@);
                            lemma_rest_rotate(aug, rows_view(adj), round_steps(cycle@), round_steps(c@), p as int, !directed);
                            lemma_round_steps_rotation(cycle@, p as int);
                            lemma_round_steps_join(rc@, c@);
                        }
                        rc.append(&mut c);
                        cycle = rc;
                        proof {
                            assert(cycle@ == rotation(cy, p as int) + c1);
                            assert(round_steps(cycle@) == rotation(round_steps(cy), p as int) + round_steps(c1));
                            assert(cycle@[0] == start);
                            assert(cycle@.contains(cycle@[0]));
                        }
                    },
                }
            }
            let ghost old_start = start;
            match first_with_row(&cycle, &adj) {
                Some(n) => {
                    start = n;
                    proof {
                        assert(has_link(aug, cycle@.last(), cycle@[0]));
                        assert(rows_view(adj).contains_key(n));
                        if ok {
                            lemma_rows_finite(adj);
                            lemma_balance_restart(rows_view(adj), old_start, n, directed);
                            lemma_row_link(rows_view(adj), n);
                        }
                        let j = cycle@.index_of(n);
                        if j < cycle@.len() - 1 {
                            assert(has_link(aug, cycle@[j], cycle@[j + 1]));
                        }
                    }
                },
                None => {
                    proof {
                        if ok && adj@.dom().len() > 0 {
                            let r = rows_view(adj);
                            adj.lemma_keys();
                            let k = adj@.dom().choose();
                            assert(adj@.dom().contains(k));
                            lemma_rows_finite(adj);
                            lemma_row_link(r, k);
                            let y = choose|y: char| #[trigger] has_link(r, k, y);
                            let rs = round_steps(cycle@);
                            assert(has_link(aug, rs[0].0, rs[0].1));
                            lemma_round_touches(aug, r, cycle@, !directed, k, y);
                            let (z, w) = choose|z: char, w: char| cycle@.contains(z) && #[trigger] has_link(r, z, w);
                            let jz = cycle@.index_of(z);
                            assert(!adj@.contains_key(cycle@[jz]));
                        }
                    }
                },
            }
        }
        if cycle.len() == 0 {
            return (eg, Vec::new());
        }
        proof {
            adj.lemma_keys();
            adj@.dom().lemma_len0_is_empty();
            assert forall|x: char, y: char| #[trigger] has_link(aug, x, y) implies taken(round_steps(cycle@), x, y, !directed) by {
                assert(!adj@.dom().contains(x));
                assert(!has_link(rows_view(adj), x, y));
            }
            assert forall|j: int| 0 <= j < round_steps(cycle@).len() implies has_link(aug, (#[trigger] round_steps(cycle@)[j]).0, round_steps(cycle@)[j].1) by {
            }
        }
        match fresh {
            Some(x) => {
                proof {
                    lemma_augmented_links(g.adj(), x, sn, en, directed);
                    assert(has_link(aug, x, sn));
                    lemma_taken_in_round(cycle@, x, sn, !directed);
                }
                let p = match position(&cycle, x) {
                    Some(p) => p,
                    None => {
                        return (eg, Vec::new());
                    },
                };
                let rc = rotated(&cycle, p);
                proof {
                    lemma_rotation_round(aug, cycle@, p as int);
                    lemma_round_steps_rotation(cycle@, p as int);
                    lemma_rotate_one(round_steps(cycle@), p as int, !directed);
                    let rs2 = round_steps(rc@);
                    assert forall|j: int| 0 <= j < rs2.len() implies has_link(aug, (#[trigger] rs2[j]).0, rs2[j].1) by {
                        if j < rc@.len() - 1 {
                            assert(has_link(aug, rc@[j], rc@[j + 1]));
                        }
                    }
                    lemma_euler_cut(g.adj(), x, sn, en, directed, rc@);
                }
                let mut path: Vec<char> = Vec::new();
                let mut i: usize = 1;
                while i < rc.len()
                    invariant
                        1 <= i <= rc@.len(),
                        path@ == rc@.subrange(1, i as int),
                    decreases rc@.len() - i,
                {
                    path.push(rc[i]);
                    i = i + 1;
                    assert(path@ =~= rc@.subrange(1, i as int));
                }
                proof {
                    assert(path@ =~= rc@.drop_first());
                    lemma_augmented_removed(g.adj(), x, sn, en, directed);
                    assert(eg.adj().contains_key(x));
                }
                eg.delete_node(x);
                cycle = path;
            },
            None => {
                let first = cycle[0];
                proof {
                    lemma_euler_round(aug, cycle@, !directed);
                }
                cycle.push(first);
            },
        }
        let ghost final_walk = cycle@;
        let color = colors.next_color();
        let mut k: usize = 1;
        while k < cycle.len()
            invariant
                eg.wf(),
                eg.adj() == g.adj(),
                cycle@ == final_walk,
                1 <= k,
                final_walk.len() > 0,
            decreases cycle@.len() - k,
        {
            if eg.has_link(cycle[k - 1], cycle[k]) {
                eg.color_link(cycle[k - 1], cycle[k], color);
            }
            k = k + 1;
        }
        (eg, cycle)
    }
}

} // verus!
