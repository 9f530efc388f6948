//! Degree sequences of graphs.
use vstd::prelude::*;
use vstd::relations::{sorted_by, total_ordering};

verus! {

/// The order of a degree sequence sorted in decreasing order.
pub open spec fn desc() -> spec_fn(usize, usize) -> bool {
    |a: usize, b: usize| a >= b
}

/// The sum of the degrees `s`.
pub open spec fn degree_sum(s: Seq<usize>) -> int
    decreases s.len(),
{
    if s.len() == 0 {
        0
    } else {
        degree_sum(s.drop_last()) + s.last()
    }
}

/// Decreasing order is a total order.
pub proof fn lemma_desc_total()
    ensures
        total_ordering(desc()),
{
}

/// The Havel-Hakimi test: the sequence `s` is that of a simple graph when, once sorted in
/// decreasing order, its first degree `d` can be linked to the `d` next nodes (each losing
/// one degree) and what remains passes the test.
pub open spec fn havel_hakimi(s: Seq<usize>) -> bool
    decreases s.len(),
{
    if s.len() == 0 {
        true
    } else {
        let t = s.sort_by(desc());
        proof {
            lemma_desc_total();
            s.lemma_sort_by_ensures(desc());
            broadcast use vstd::seq_lib::group_to_multiset_ensures;
            assert(t.to_multiset().len() == t.len());
            assert(s.to_multiset().len() == s.len());
            assert(t.len() == s.len());
        }
        let d = t[0] as int;
        let rest = t.drop_first();
        if d == 0 {
            true
        } else if rest.len() < d {
            false
        } else if rest[d - 1] == 0 {
            false
        } else {
            havel_hakimi(Seq::new(rest.len(), |i: int| if i < d { (rest[i] - 1) as usize } else { rest[i] }))
        }
    }
}

/// Sorts `v` in decreasing order.
fn sort_desc(v: &mut Vec<usize>)
    ensures
        sorted_by(final(v)@, desc()),
        final(v)@.to_multiset() == old(v)@.to_multiset(),
        final(v)@.len() == old(v)@.len(),
{
    let mut s: Vec<usize> = Vec::new();
    let mut i: usize = 0;
    proof {
        broadcast use vstd::seq_lib::group_to_multiset_ensures;
        assert(old(v)@.take(0) =~= Seq::<usize>::empty());
        assert(s@ =~= Seq::<usize>::empty());
    }
    while i < v.len()
        invariant
            i <= v@.len(),
            v@ == old(v)@,
            sorted_by(s@, desc()),
            s@.to_multiset() == v@.take(i as int).to_multiset(),
        decreases v@.len() - i,
    {
        let e = v[i];
        let mut p: usize = 0;
        while p < s.len() && s[p] >= e
            invariant
                p <= s@.len(),
                forall|m: int| 0 <= m < p ==> #[trigger] s@[m] >= e,
            decreases s@.len() - p,
        {
            p = p + 1;
        }
        let ghost before = s@;
        proof {
            assert forall|m: int| p <= m < before.len() implies #[trigger] before[m] < e by {
                assert(before[p as int] < e);
                if m > p {
                    assert(desc()(before[p as int], before[m]));
                }
            }
        }
        s.insert(p, e);
        proof {
            broadcast use vstd::seq_lib::group_to_multiset_ensures;
            broadcast use vstd::multiset::group_multiset_axioms;
            assert(v@.take(i + 1) =~= v@.take(i as int).push(e));
            assert(s@.remove(p as int) =~= before);
            vstd::seq_lib::to_multiset_remove(s@, p as int);
            assert(s@.to_multiset().count(e) > 0) by {
                assert(s@.contains(e));
            }
            assert(s@.to_multiset() =~= before.to_multiset().insert(e));
            assert forall|a: int, b: int| 0 <= a < b < s@.len() implies #[trigger] desc()(s@[a], s@[b]) by {
                if b < p {
                } else if a < p && b == p {
                } else if a < p && b > p {
                    assert(s@[b] == before[b - 1]);
                    assert(desc()(before[a], before[b - 1]));
                } else if a == p {
                    assert(s@[b] == before[b - 1]);
                } else {
                    assert(s@[a] == before[a - 1]);
                    assert(s@[b] == before[b - 1]);
                    assert(desc()(before[a - 1], before[b - 1]));
                }
            }
        }
        i = i + 1;
    }
    proof {
        broadcast use vstd::seq_lib::group_to_multiset_ensures;
        assert(v@.take(i as int) =~= v@);
        assert(s@.to_multiset().len() == s@.len());
        assert(v@.to_multiset().len() == v@.len());
    }
    *v = s;
}

pub struct Sequence {}

impl Sequence {
    /// Indicates whether a graph exists that has this sequence: the sum of the degrees is
    /// even and the sequence passes the Havel-Hakimi test.
    pub fn is_valid(sequence: Vec<usize>) -> (b: bool)
        requires
            degree_sum(sequence@) <= usize::MAX,
        ensures
            b == (degree_sum(sequence@) % 2 == 0 && havel_hakimi(sequence@)),
    {
        let mut sum: usize = 0;
        let mut i: usize = 0;
        while i < sequence.len()
            invariant
                i <= sequence@.len(),
                sum == degree_sum(sequence@.take(i as int)),
                degree_sum(sequence@) <= usize::MAX,
            decreases sequence@.len() - i,
        {
            proof {
                assert(sequence@.take(i + 1).drop_last() =~= sequence@.take(i as int));
                lemma_degree_sum_prefix(sequence@, i + 1);
            }
            sum = sum + sequence[i];
            i = i + 1;
        }
        assert(sequence@.take(i as int) =~= sequence@);
        let ghost orig = sequence@;
        if sum % 2 != 0 {
            return false;
        }
        let ghost checks = degree_sum(sequence@) % 2 == 0;
        assert(checks);
        let mut cur = sequence;
        while cur.len() > 0
            invariant
                havel_hakimi(cur@) == havel_hakimi(orig),
                orig == sequence@,
                checks,
                checks == (degree_sum(orig) % 2 == 0),
            decreases cur@.len(),
        {
            let ghost before = cur@;
            sort_desc(&mut cur);
            proof {
                lemma_desc_total();
                before.lemma_sort_by_ensures(desc());
                vstd::seq_lib::lemma_sorted_unique(cur@, before.sort_by(desc()), desc());
            }
            let ghost t = cur@;
            let d = cur.remove(0);
            proof {
                assert(cur@ =~= t.drop_first());
                assert(t == before.sort_by(desc()));
                assert(d == t[0]);
            }
            if d == 0 {
                assert(havel_hakimi(before));
                return true;
            }
            if cur.len() < d {
                assert(!havel_hakimi(before));
                return false;
            }
            if cur[d - 1] == 0 {
                assert(!havel_hakimi(before));
                return false;
            }
            let ghost rest = cur@;
            let mut j: usize = 0;
            while j < d
                invariant
                    d <= cur@.len(),
                    cur@.len() == rest.len(),
                    j <= d,
                    rest[d - 1] != 0,
                    sorted_by(rest, desc()),
                    forall|m: int| 0 <= m < j ==> cur@[m] == rest[m] - 1,
                    forall|m: int| j <= m < cur@.len() ==> cur@[m] == rest[m],
                decreases d - j,
            {
                proof {
                    assert(desc()(rest[j as int], rest[d - 1]));
                }
                let x = cur[j];
                cur.set(j, x - 1);
                j = j + 1;
            }
            proof {
                assert(cur@ =~= Seq::new(rest.len(), |m: int| if m < d { (rest[m] - 1) as usize } else { rest[m] }));
                assert(havel_hakimi(before) == havel_hakimi(cur@));
            }
        }
        true
    }

    /// Returns the sequence of a complete graph of a given order: `graph_order` times the
    /// degree `graph_order - 1`.
    pub fn complete(graph_order: usize) -> (s: Vec<usize>)
        ensures
            s@ == Seq::new(graph_order as nat, |i: int| (graph_order - 1) as usize),
    {
        let mut sequence: Vec<usize> = Vec::new();
        let mut i: usize = 0;
        while i < graph_order
            invariant
                i <= graph_order,
                sequence@ == Seq::new(i as nat, |j: int| (graph_order - 1) as usize),
            decreases graph_order - i,
        {
            sequence.push(graph_order - 1);
            assert(sequence@ =~= Seq::new((i + 1) as nat, |j: int| (graph_order - 1) as usize));
            i = i + 1;
        }
        sequence
    }
}

/// A node cannot have more neighbors than there are other nodes of positive degree: in a
/// sequence that passes the Havel-Hakimi test, each positive degree `s[i]` is at most the
/// number of other nodes whose degree is not 0 (so in particular each degree is less than
/// the number of nodes).
pub proof fn law_degree_needs_neighbors(s: Seq<usize>, i: int)
    requires
        havel_hakimi(s),
        0 <= i < s.len(),
    ensures
        s[i] < s.len(),
        s[i] > 0 ==> s.to_multiset().count(0usize) + s[i] < s.len(),
{
    broadcast use vstd::seq_lib::group_to_multiset_ensures;
    broadcast use vstd::multiset::group_multiset_axioms;
    lemma_desc_total();
    s.lemma_sort_by_ensures(desc());
    let t = s.sort_by(desc());
    assert(t.to_multiset().len() == t.len());
    assert(s.to_multiset().len() == s.len());
    assert(t.len() == s.len());
    assert(s.contains(s[i]));
    assert(t.to_multiset().count(s[i]) > 0);
    assert(t.contains(s[i]));
    let j = t.index_of(s[i]);
    assert(t[j] == s[i]);
    if j > 0 {
        assert(desc()(t[0], t[j]));
    }
    let d = t[0] as int;
    let rest = t.drop_first();
    assert(d >= s[i]);
    if d > 0 {
        assert(rest.len() >= d);
        assert(rest[d - 1] != 0);
        if s[i] > 0 {
            let front = t.take(d + 1);
            let back = t.skip(d + 1);
            assert(front + back =~= t);
            vstd::seq_lib::lemma_multiset_commutative(front, back);
            assert(!front.contains(0usize)) by {
                if front.contains(0usize) {
                    let m = front.index_of(0usize);
                    assert(t[m] == 0);
                    if m > 0 {
                        assert(rest[m - 1] == t[m]);
                        assert(desc()(t[m], t[d]));
                        assert(t[d] == rest[d - 1]);
                    }
                }
            }
            assert(front.to_multiset().count(0usize) == 0);
            assert(back.to_multiset().count(0usize) <= back.to_multiset().len());
            assert(back.to_multiset().len() == back.len());
        }
    }
}

/// Whether a graph exists for a sequence does not depend on the order of its degrees: two
/// sequences that hold the same degrees (as many times each) pass or fail the test together.
pub proof fn law_order_free(s1: Seq<usize>, s2: Seq<usize>)
    requires
        s1.to_multiset() == s2.to_multiset(),
    ensures
        havel_hakimi(s1) == havel_hakimi(s2),
        degree_sum(s1) == degree_sum(s2),
{
    broadcast use vstd::seq_lib::group_to_multiset_ensures;
    lemma_desc_total();
    s1.lemma_sort_by_ensures(desc());
    s2.lemma_sort_by_ensures(desc());
    vstd::seq_lib::lemma_sorted_unique(s1.sort_by(desc()), s2.sort_by(desc()), desc());
    assert(s1.to_multiset().len() == s1.len());
    assert(s2.to_multiset().len() == s2.len());
    lemma_degree_sum_multiset(s1, s2);
}

/// The sum of the degrees only depends on how many times each degree occurs.
proof fn lemma_degree_sum_multiset(s1: Seq<usize>, s2: Seq<usize>)
    requires
        s1.to_multiset() == s2.to_multiset(),
    ensures
        degree_sum(s1) == degree_sum(s2),
    decreases s1.len(),
{
    broadcast use vstd::seq_lib::group_to_multiset_ensures;
    broadcast use vstd::multiset::group_multiset_axioms;
    assert(s1.to_multiset().len() == s1.len());
    assert(s2.to_multiset().len() == s2.len());
    if s1.len() > 0 {
        let x = s1.last();
        assert(s1.contains(x));
        assert(s2.to_multiset().count(x) > 0);
        assert(s2.contains(x));
        let i = s2.index_of(x);
        let r2 = s2.remove(i);
        let r1 = s1.drop_last();
        assert(s1 =~= r1.push(x));
        assert(r1.to_multiset() =~= s1.to_multiset().remove(x));
        assert(r2.to_multiset() =~= s2.to_multiset().remove(x));
        lemma_degree_sum_multiset(r1, r2);
        lemma_degree_sum_remove(s2, i);
    }
}

/// Taking degree `i` out of a sequence takes it out of the sum.
proof fn lemma_degree_sum_remove(s: Seq<usize>, i: int)
    requires
        0 <= i < s.len(),
    ensures
        degree_sum(s.remove(i)) + s[i] == degree_sum(s),
    decreases s.len(),
{
    if i < s.len() - 1 {
        lemma_degree_sum_remove(s.drop_last(), i);
        assert(s.remove(i).drop_last() =~= s.drop_last().remove(i));
        assert(s.remove(i).last() == s.last());
    } else {
        assert(s.remove(i) =~= s.drop_last());
    }
}

/// The degrees of a complete graph on `n` nodes (each node linked to the `n - 1` others) pass
/// the test; so do the degrees of `n` nodes without links.
pub proof fn law_complete_and_empty(n: nat)
    requires
        n < usize::MAX,
    ensures
        havel_hakimi(Seq::new(n, |i: int| (n - 1) as usize)),
        havel_hakimi(Seq::new(n, |i: int| 0usize)),
    decreases n,
{
    broadcast use vstd::seq_lib::group_to_multiset_ensures;
    lemma_desc_total();
    let z = Seq::new(n, |i: int| 0usize);
    z.lemma_sort_by_ensures(desc());
    assert(sorted_by(z, desc()));
    vstd::seq_lib::lemma_sorted_unique(z, z.sort_by(desc()), desc());
    let c = Seq::new(n, |i: int| (n - 1) as usize);
    c.lemma_sort_by_ensures(desc());
    assert(sorted_by(c, desc()));
    vstd::seq_lib::lemma_sorted_unique(c, c.sort_by(desc()), desc());
    if n >= 2 {
        law_complete_and_empty((n - 1) as nat);
        let rest = c.drop_first();
        let d = (n - 1) as int;
        let next = Seq::new(rest.len(), |i: int| if i < d { (rest[i] - 1) as usize } else { rest[i] });
        assert(next =~= Seq::new((n - 1) as nat, |i: int| ((n - 1) - 1) as usize));
    }
}

/// The sum of a prefix is at most the sum of the whole.
proof fn lemma_degree_sum_prefix(s: Seq<usize>, k: int)
    requires
        0 <= k <= s.len(),
    ensures
        degree_sum(s.take(k)) <= degree_sum(s),
    decreases s.len(),
{
    if k < s.len() {
        assert(s.drop_last().take(k) =~= s.take(k));
        lemma_degree_sum_prefix(s.drop_last(), k);
    } else {
        assert(s.take(k) =~= s);
    }
}

} // verus!
