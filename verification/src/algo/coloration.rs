//! Coloration: partitions of the nodes for a coloring.
use vstd::prelude::*;
use crate::algo::connectivity::{comps_view, connected, flat, lemma_flat_contains, lemma_flat_member, lemma_flat_push, undirected_copy, Connectivity};
use crate::algo::transform::undirected;
use crate::algo::utils::color::{Color, ColorCycle};
use crate::graph::renderer::LayoutEngine;
use crate::graph::{has_link, increasing, rows_view, rows_wf, Adjacency, Graph};
use crate::keymap::KeyMap;

verus! {

/// The leaves of `rows`, in order: each node with a single link, with the node it leads to.
fn leaves_of(rows: &KeyMap<char, KeyMap<char, i8>>) -> (v: Vec<(char, char)>)
    requires
        rows_wf(*rows),
    ensures
        forall|j: int| 0 <= j < v@.len() ==> rows@.contains_key((#[trigger] v@[j]).0)
            && rows@[v@[j].0].spec_len() == 1 && has_link(rows_view(*rows), v@[j].0, v@[j].1),
        forall|k: char| rows@.contains_key(k) && rows@[k].spec_len() == 1 ==> exists|j: int| 0 <= j < v@.len() && (#[trigger] v@[j]).0 == k,
        forall|a: int, b: int| 0 <= a < b < v@.len() ==> (#[trigger] v@[a]).0 != (#[trigger] v@[b]).0,
        forall|a: int, b: int| 0 <= a < b < v@.len() ==> rows.keys().index_of((#[trigger] v@[a]).0)
            < rows.keys().index_of((#[trigger] v@[b]).0),
{
    let mut v: Vec<(char, char)> = Vec::new();
    let mut i: usize = 0;
    proof {
        rows.lemma_keys();
    }
    while i < rows.len()
        invariant
            rows_wf(*rows),
            i <= rows.spec_len(),
            rows.keys().len() == rows.spec_len(),
            forall|k: char| #[trigger] rows@.contains_key(k) <==> rows.keys().contains(k),
            forall|j: int| 0 <= j < v@.len() ==> rows@.contains_key((#[trigger] v@[j]).0)
                && rows@[v@[j].0].spec_len() == 1 && has_link(rows_view(*rows), v@[j].0, v@[j].1),
            forall|q: int| 0 <= q < i && rows@[rows.keys()[q]].spec_len() == 1 ==> exists|j: int| 0 <= j < v@.len() && (#[trigger] v@[j]).0 == rows.keys()[q],
            rows.keys().no_duplicates(),
            forall|j: int| 0 <= j < v@.len() ==> rows.keys().take(i as int).contains((#[trigger] v@[j]).0),
            forall|a: int, b: int| 0 <= a < b < v@.len() ==> (#[trigger] v@[a]).0 != (#[trigger] v@[b]).0,
            forall|a: int, b: int| 0 <= a < b < v@.len() ==> rows.keys().index_of((#[trigger] v@[a]).0)
                < rows.keys().index_of((#[trigger] v@[b]).0),
            forall|j: int| 0 <= j < v@.len() ==> rows.keys().index_of((#[trigger] v@[j]).0) < i,
        decreases rows.spec_len() - i,
    {
        let k = rows.key_at(i);
        let row = rows.value_at(i);
        let ghost v0 = v@;
        if row.len() == 1 {
            assert(rows@[k].wf());
            let to = row.key_at(0);
            v.push((k, to));
            assert(v@[v@.len() - 1] == (k, to));
        }
        proof {
            assert(k == rows.keys()[i as int]);
            let ks = rows.keys();
            assert(ks.contains(ks[i as int]));
            assert(ks.index_of(k) == i);
            assert forall|j: int| 0 <= j < v@.len() implies rows.keys().index_of((#[trigger] v@[j]).0) < i + 1 by {
                if j < v0.len() {
                    assert(v@[j] == v0[j]);
                }
            }
            assert forall|a: int, b: int| 0 <= a < b < v@.len() implies rows.keys().index_of((#[trigger] v@[a]).0)
                < rows.keys().index_of((#[trigger] v@[b]).0) by {
                assert(v@[a] == v0[a]);
                if b < v0.len() {
                    assert(v@[b] == v0[b]);
                }
            }
            assert forall|j: int| 0 <= j < v@.len() implies rows.keys().take(i + 1).contains((#[trigger] v@[j]).0) by {
                if j < v0.len() {
                    assert(v@[j] == v0[j]);
                    let q = rows.keys().take(i as int).index_of(v0[j].0);
                    assert(rows.keys().take(i + 1)[q] == v0[j].0);
                } else {
                    assert(rows.keys().take(i + 1)[i as int] == k);
                }
            }
            assert forall|a: int, b: int| 0 <= a < b < v@.len() implies (#[trigger] v@[a]).0 != (#[trigger] v@[b]).0 by {
                if b >= v0.len() {
                    assert(v@[a] == v0[a]);
                    assert(rows.keys().take(i as int).contains(v0[a].0));
                    let q = rows.keys().take(i as int).index_of(v0[a].0);
                    assert(rows.keys()[q] == v0[a].0);
                    assert(v@[b].0 == k);
                } else {
                    assert(v@[a] == v0[a]);
                    assert(v@[b] == v0[b]);
                }
            }
            assert forall|q: int| 0 <= q < i + 1 && rows@[rows.keys()[q]].spec_len() == 1 implies exists|j: int| 0 <= j < v@.len() && (#[trigger] v@[j]).0 == rows.keys()[q] by {
                if q < i {
                    let j = choose|j: int| 0 <= j < v0.len() && (#[trigger] v0[j]).0 == rows.keys()[q];
                    assert(v@[j] == v0[j]);
                } else {
                    assert(v@[v@.len() - 1].0 == rows.keys()[q]);
                }
            }
        }
        i = i + 1;
    }
    proof {
        assert forall|k: char| rows@.contains_key(k) && rows@[k].spec_len() == 1 implies exists|j: int| 0 <= j < v@.len() && (#[trigger] v@[j]).0 == k by {
            let q = rows.keys().index_of(k);
            assert(rows.keys()[q] == k);
        }
    }
    v
}

/// Takes node `x` out of `rows`: its row, and the links to it.
fn drop_node(rows: &mut KeyMap<char, KeyMap<char, i8>>, x: char)
    requires
        rows_wf(*old(rows)),
    ensures
        rows_wf(*final(rows)),
        final(rows)@.dom() == old(rows)@.dom().remove(x),
        final(rows).spec_len() == old(rows).spec_len() - (if old(rows)@.contains_key(x) { 1int } else { 0int }),
        forall|a: char, b: char| #[trigger] has_link(rows_view(*final(rows)), a, b)
            <==> has_link(rows_view(*old(rows)), a, b) && a != x && b != x,
{
    let ghost before = rows_view(*rows);
    let _ = rows.remove(&x);
    let ghost mid = rows_view(*rows);
    let ghost len1 = rows.spec_len();
    assert forall|a: char, b: char| #[trigger] has_link(mid, a, b) <==> has_link(before, a, b) && a != x by {}
    let mut i: usize = 0;
    while i < rows.len()
        invariant
            rows_wf(*rows),
            i <= rows.spec_len(),
            rows.spec_len() == len1,
            rows@.dom() == mid.dom(),
            rows.keys() == rows.keys(),
            forall|a: char, b: char| #[trigger] has_link(rows_view(*rows), a, b) ==> has_link(mid, a, b),
            forall|a: char, b: char| #[trigger] has_link(mid, a, b) && b != x ==> has_link(rows_view(*rows), a, b),
            forall|q: int| 0 <= q < i ==> !(#[trigger] rows@[rows.keys()[q]])@.contains_key(x),
            forall|q: int| 0 <= q < rows.spec_len() ==> rows@.contains_key(#[trigger] rows.keys()[q]),
        decreases rows.spec_len() - i,
    {
        let k = rows.key_at(i);
        let mut row = rows.value_at(i).duplicate();
        assert(row.wf());
        let _ = row.remove(&x);
        let ghost keys0 = rows.keys();
        let ghost prev = rows_view(*rows);
        let ghost prev_rows = rows@;
        rows.set_value_at(i, row);
        proof {
            assert forall|a: char, b: char| #[trigger] has_link(rows_view(*rows), a, b) implies has_link(prev, a, b) by {
                if a == k {
                    assert(rows@[k]@ == row@);
                } else {
                    assert(rows@[a] == prev_rows[a]);
                }
            }
            assert forall|a: char, b: char| #[trigger] has_link(prev, a, b) && b != x implies has_link(rows_view(*rows), a, b) by {
                if a == k {
                    assert(rows@[k]@ == row@);
                } else {
                    assert(rows@[a] == prev_rows[a]);
                }
            }
            assert forall|q: int| 0 <= q < i + 1 implies !(#[trigger] rows@[rows.keys()[q]])@.contains_key(x) by {
                if q < i {
                    assert(rows.keys()[q] == keys0[q]);
                }
            }
        }
        i = i + 1;
    }
    proof {
        rows.lemma_keys();
        assert forall|a: char, b: char| #[trigger] has_link(rows_view(*rows), a, b) implies b != x by {
            let q = rows.keys().index_of(a);
            assert(rows.keys()[q] == a);
        }
        assert(rows@.dom() =~= before.dom().remove(x));
        assert forall|a: char, b: char| #[trigger] has_link(rows_view(*rows), a, b)
            <==> has_link(before, a, b) && a != x && b != x by {
            if has_link(rows_view(*rows), a, b) {
                assert(has_link(mid, a, b));
            }
            if has_link(before, a, b) && a != x && b != x {
                assert(has_link(mid, a, b));
            }
        }
    }
}

/// The number of `false` in `s`.
pub open spec fn false_count(s: Seq<bool>) -> nat
    decreases s.len(),
{
    if s.len() == 0 {
        0
    } else {
        false_count(s.drop_last()) + if s.last() { 0nat } else { 1nat }
    }
}

/// A sequence holds at most as many `false` as entries; one starting with `false` holds one.
proof fn lemma_false_count_bounds(s: Seq<bool>)
    ensures
        false_count(s) <= s.len(),
        s.len() > 0 && !s[0] ==> false_count(s) > 0,
    decreases s.len(),
{
    if s.len() > 0 {
        lemma_false_count_bounds(s.drop_last());
        if s.len() > 1 && !s[0] {
            assert(s.drop_last()[0] == s[0]);
        }
    }
}

/// The number of `false` among `row[lo..=hi]`.
fn count_false(row: &Vec<bool>, lo: usize, hi: usize) -> (n: usize)
    requires
        lo <= hi < row@.len(),
    ensures
        n == false_count(row@.subrange(lo as int, hi + 1)),
        n <= hi - lo + 1,
        !row@[lo as int] ==> n > 0,
{
    let len = row.len();
    let mut n: usize = 0;
    let mut c: usize = lo;
    assert(row@.subrange(lo as int, lo as int) =~= Seq::<bool>::empty());
    while c <= hi
        invariant
            lo <= c <= hi + 1,
            hi < len,
            len == row@.len(),
            n == false_count(row@.subrange(lo as int, c as int)),
            n <= c - lo,
        decreases hi + 1 - c,
    {
        assert(row@.subrange(lo as int, c + 1).drop_last() =~= row@.subrange(lo as int, c as int));
        if !row[c] {
            n = n + 1;
        }
        c = c + 1;
    }
    proof {
        lemma_false_count_bounds(row@.subrange(lo as int, hi + 1));
    }
    n
}

/// Exchanges entries `a` and `b` of `v`.
fn swap_entries<T: Copy>(v: &mut Vec<T>, a: usize, b: usize)
    requires
        a < old(v)@.len(),
        b < old(v)@.len(),
    ensures
        final(v)@ == old(v)@.update(a as int, old(v)@[b as int]).update(b as int, old(v)@[a as int]),
{
    let va = v[a];
    let vb = v[b];
    v.set(a, vb);
    v.set(b, va);
}

/// Whether `m` is a square matrix of side `n` with `false` all along its diagonal.
pub open spec fn square(m: Seq<Vec<bool>>, n: nat) -> bool {
    &&& m.len() == n
    &&& forall|a: int| 0 <= a < n ==> (#[trigger] m[a])@.len() == n
    &&& forall|a: int| 0 <= a < n ==> !(#[trigger] m[a])@[a]
}

/// Where position `x` comes from when positions `a` and `b` are exchanged.
pub open spec fn exchanged(a: int, b: int, x: int) -> int {
    if x == a {
        b
    } else if x == b {
        a
    } else {
        x
    }
}

/// Exchanges rows `a` and `b` of the matrix, then columns `a` and `b`.
fn swap_places(m: &mut Vec<Vec<bool>>, a: usize, b: usize, Ghost(n): Ghost<nat>)
    requires
        square(old(m)@, n),
        a < n,
        b < n,
    ensures
        square(final(m)@, n),
        forall|r: int, c: int| 0 <= r < n && 0 <= c < n ==> #[trigger] final(m)@[r]@[c]
            == old(m)@[exchanged(a as int, b as int, r)]@[exchanged(a as int, b as int, c)],
{
    if a == b {
        return;
    }
    let mut tmp: Vec<bool> = Vec::new();
    std::mem::swap(&mut tmp, &mut m[a]);
    std::mem::swap(&mut tmp, &mut m[b]);
    std::mem::swap(&mut tmp, &mut m[a]);
    let ghost rows_done = m@;
    assert forall|r: int| 0 <= r < n implies (#[trigger] rows_done[r])@.len() == n by {
        let orig = if r == a { b as int } else if r == b { a as int } else { r };
        assert(rows_done[r] == old(m)@[orig]);
    }
    let mut r: usize = 0;
    while r < m.len()
        invariant
            m@.len() == n,
            a < n,
            b < n,
            r <= n,
            forall|q: int| 0 <= q < n ==> (#[trigger] m@[q])@.len() == n,
            forall|q: int| 0 <= q < n ==> (#[trigger] rows_done[q])@.len() == n,
            forall|q: int| 0 <= q < r ==> (#[trigger] m@[q])@ == rows_done[q]@.update(a as int, rows_done[q]@[b as int]).update(b as int, rows_done[q]@[a as int]),
            forall|q: int| r <= q < n ==> (#[trigger] m@[q]) == rows_done[q],
        decreases n - r,
    {
        swap_entries(&mut m[r], a, b);
        r = r + 1;
    }
    proof {
        assert forall|q: int| 0 <= q < n implies !(#[trigger] m@[q])@[q] by {
            let orig = exchanged(a as int, b as int, q);
            assert(rows_done[q] == old(m)@[orig]);
            assert(!old(m)@[orig]@[orig]);
        }
        assert forall|r: int, c: int| 0 <= r < n && 0 <= c < n implies #[trigger] m@[r]@[c]
            == old(m)@[exchanged(a as int, b as int, r)]@[exchanged(a as int, b as int, c)] by {
            assert(rows_done[r] == old(m)@[exchanged(a as int, b as int, r)]);
        }
    }
}

/// The first of `parts` that holds `x`, if any.
fn first_holding(parts: &Vec<Vec<char>>, x: char) -> (r: Option<usize>)
    ensures
        match r {
            Some(i) => i < parts@.len() && parts@[i as int]@.contains(x)
                && forall|j: int| 0 <= j < i ==> !(#[trigger] parts@[j])@.contains(x),
            None => forall|j: int| 0 <= j < parts@.len() ==> !(#[trigger] parts@[j])@.contains(x),
        },
{
    let mut i: usize = 0;
    while i < parts.len()
        invariant
            i <= parts@.len(),
            forall|j: int| 0 <= j < i ==> !(#[trigger] parts@[j])@.contains(x),
        decreases parts@.len() - i,
    {
        let mut j: usize = 0;
        while j < parts[i].len()
            invariant
                i < parts@.len(),
                forall|q: int| 0 <= q < j ==> parts@[i as int]@[q] != x,
                forall|q: int| 0 <= q < i ==> !(#[trigger] parts@[q])@.contains(x),
            decreases parts@[i as int]@.len() - j,
        {
            if parts[i][j] == x {
                assert(parts@[i as int]@[j as int] == x);
                return Some(i);
            }
            j = j + 1;
        }
        assert(!parts@[i as int]@.contains(x)) by {
            if parts@[i as int]@.contains(x) {
                let q = parts@[i as int]@.index_of(x);
            }
        }
        i = i + 1;
    }
    None
}

/// Exchanging two entries at or after position `i` keeps the entries before `i`, and what the
/// sequence holds.
proof fn lemma_swap_keeps(s: Seq<char>, a: int, b: int, i: int)
    requires
        0 <= i <= a < s.len(),
        i <= b < s.len(),
        s.no_duplicates(),
    ensures
        s.update(a, s[b]).update(b, s[a]).take(i) == s.take(i),
        s.update(a, s[b]).update(b, s[a]).no_duplicates(),
        forall|x: char| #[trigger] s.update(a, s[b]).update(b, s[a]).contains(x) == s.contains(x),
        s.update(a, s[b]).update(b, s[a]).len() == s.len(),
{
    let t = s.update(a, s[b]).update(b, s[a]);
    assert(t.take(i) =~= s.take(i));
    assert forall|p: int| 0 <= p < t.len() implies t[p] == s[exchanged(a, b, p)] by {}
    assert forall|p: int, q: int| 0 <= p < q < t.len() implies t[p] != t[q] by {
        assert(t[p] == s[exchanged(a, b, p)]);
        assert(t[q] == s[exchanged(a, b, q)]);
    }
    assert forall|x: char| #[trigger] t.contains(x) == s.contains(x) by {
        if t.contains(x) {
            let p = t.index_of(x);
            assert(s[exchanged(a, b, p)] == x);
        }
        if s.contains(x) {
            let p = s.index_of(x);
            assert(t[exchanged(a, b, p)] == x);
        }
    }
}

/// A prefix of a sequence without duplicates has none.
proof fn lemma_take_distinct(s: Seq<char>, i: int)
    requires
        s.no_duplicates(),
        0 <= i <= s.len(),
    ensures
        s.take(i).no_duplicates(),
        forall|x: char| #[trigger] s.take(i).contains(x) ==> s.contains(x),
{
    assert forall|p: int, q: int| 0 <= p < q < i implies s.take(i)[p] != s.take(i)[q] by {}
    assert forall|x: char| #[trigger] s.take(i).contains(x) implies s.contains(x) by {
        let p = s.take(i).index_of(x);
        assert(s[p] == x);
    }
}

/// The front of a sequence without duplicates has none.
proof fn lemma_front_distinct(a: Seq<char>, b: Seq<char>)
    requires
        (a + b).no_duplicates(),
    ensures
        a.no_duplicates(),
        forall|x: char| #[trigger] a.contains(x) ==> (a + b).contains(x),
{
    assert forall|p: int, q: int| 0 <= p < q < a.len() implies a[p] != a[q] by {
        assert((a + b)[p] == a[p]);
        assert((a + b)[q] == a[q]);
    }
    assert forall|x: char| #[trigger] a.contains(x) implies (a + b).contains(x) by {
        let p = a.index_of(x);
        assert((a + b)[p] == x);
    }
}

/// One more node at the end of part `j`: the nodes of all the parts, and that one.
proof fn lemma_flat_update_push(comps: Seq<Seq<char>>, j: int, x: char)
    requires
        0 <= j < comps.len(),
    ensures
        forall|y: char| #[trigger] flat(comps.update(j, comps[j].push(x))).contains(y) <==> flat(comps).contains(y) || y == x,
        flat(comps).no_duplicates() && !flat(comps).contains(x) ==> flat(comps.update(j, comps[j].push(x))).no_duplicates(),
    decreases comps.len(),
{
    let c2 = comps.update(j, comps[j].push(x));
    let f = flat(comps);
    let f2 = flat(c2);
    let init = comps.drop_last();
    if j == comps.len() - 1 {
        assert(c2.drop_last() =~= init);
        assert(f2 =~= f.push(x)) by {
            assert(f == flat(init) + comps.last());
            assert(f2 == flat(init) + comps.last().push(x));
        }
        assert forall|y: char| #[trigger] f2.contains(y) <==> f.contains(y) || y == x by {
            if f2.contains(y) {
                let p = f2.index_of(y);
                if p < f.len() {
                    assert(f[p] == y);
                }
            }
            if f.contains(y) {
                let p = f.index_of(y);
                assert(f2[p] == y);
            }
            if y == x {
                assert(f2[f.len() as int] == x);
            }
        }
        if f.no_duplicates() && !f.contains(x) {
            assert forall|p: int, q: int| 0 <= p < q < f2.len() implies f2[p] != f2[q] by {
                if q == f.len() {
                    assert(f2[p] == f[p]);
                    assert(f.contains(f[p]));
                } else {
                    assert(f2[p] == f[p]);
                    assert(f2[q] == f[q]);
                }
            }
        }
    } else {
        lemma_flat_update_push(init, j, x);
        assert(c2.drop_last() =~= init.update(j, init[j].push(x)));
        let g = flat(init);
        let g2 = flat(init.update(j, init[j].push(x)));
        assert(f == g + comps.last());
        assert(f2 == g2 + comps.last());
        assert forall|y: char| #[trigger] f2.contains(y) <==> f.contains(y) || y == x by {
            if f2.contains(y) {
                let p = f2.index_of(y);
                if p < g2.len() {
                    assert(g2[p] == y);
                    assert(g2.contains(y));
                    if y != x {
                        assert(g.contains(y));
                        let q = g.index_of(y);
                        assert(f[q] == y);
                    }
                } else {
                    assert(comps.last()[p - g2.len()] == y);
                    assert(f[p - g2.len() + g.len()] == y);
                }
            }
            if f.contains(y) {
                let p = f.index_of(y);
                if p < g.len() {
                    assert(g[p] == y);
                    assert(g.contains(y));
                    assert(g2.contains(y));
                    let q = g2.index_of(y);
                    assert(f2[q] == y);
                } else {
                    assert(f2[p - g.len() + g2.len()] == y);
                }
            }
            if y == x {
                assert(g2.contains(x));
                let q = g2.index_of(x);
                assert(f2[q] == x);
            }
        }
        if f.no_duplicates() && !f.contains(x) {
            assert forall|p: int| 0 <= p < g.len() implies f[p] == g[p] by {}
            assert(g.no_duplicates()) by {
                lemma_front_distinct(g, comps.last());
            }
            assert forall|y: char| #[trigger] g.contains(y) implies f.contains(y) by {
                let p = g.index_of(y);
                assert(f[p] == y);
            }
            assert(!g.contains(x));
            assert forall|p: int, q: int| 0 <= p < q < f2.len() implies f2[p] != f2[q] by {
                let l = comps.last();
                if q >= g2.len() && p < g2.len() {
                    let y = f2[p];
                    assert(g2[p] == y);
                    assert(l[q - g2.len()] == f2[q]);
                    assert(f[q - g2.len() + g.len()] == f2[q]);
                    if y == f2[q] {
                        if y == x {
                            assert(f.contains(x));
                        } else {
                            assert(g2.contains(y));
                            assert(g.contains(y));
                            let r = g.index_of(y);
                            assert(f[r] == y);
                        }
                    }
                } else if p >= g2.len() {
                    assert(f[p - g2.len() + g.len()] == f2[p]);
                    assert(f[q - g2.len() + g.len()] == f2[q]);
                } else {
                    assert(g2[p] == f2[p]);
                    assert(g2[q] == f2[q]);
                }
            }
        }
    }
}

/// Whether no two nodes of `s` are linked in `adj`.
pub open spec fn independent(adj: Adjacency, s: Seq<char>) -> bool {
    forall|a: int, b: int| 0 <= a < s.len() && 0 <= b < s.len() ==> !has_link(adj, #[trigger] s[a], #[trigger] s[b])
}

/// Whether a node of `part` and `x` are linked, one way or the other, in `adj`.
pub open spec fn touches_any(adj: Adjacency, part: Seq<char>, x: char) -> bool {
    exists|q: int| 0 <= q < part.len() && (has_link(adj, #[trigger] part[q], x) || has_link(adj, x, part[q]))
}

/// Whether a node of `part` and `x` are linked (one way or the other) in the graph `g`.
fn linked_to_any<E: LayoutEngine>(g: &Graph<E>, part: &Vec<char>, x: char) -> (b: bool)
    requires
        g.wf(),
    ensures
        b == touches_any(g.adj(), part@, x),
{
    let mut q: usize = 0;
    while q < part.len()
        invariant
            g.wf(),
            q <= part@.len(),
            forall|j: int| 0 <= j < q ==> !has_link(g.adj(), #[trigger] part@[j], x) && !has_link(g.adj(), x, part@[j]),
        decreases part@.len() - q,
    {
        if g.has_link(part[q], x) || g.has_link(x, part[q]) {
            assert(has_link(g.adj(), part@[q as int], x) || has_link(g.adj(), x, part@[q as int]));
            return true;
        }
        q = q + 1;
    }
    false
}

/// Adding to an independent `s` a node `x` linked to none of its nodes, nor to itself, keeps
/// it independent.
proof fn lemma_independent_push(adj: Adjacency, s: Seq<char>, x: char)
    requires
        independent(adj, s),
        !has_link(adj, x, x),
        !touches_any(adj, s, x),
    ensures
        independent(adj, s.push(x)),
{
    let t = s.push(x);
    assert forall|q: int| 0 <= q < s.len() implies !has_link(adj, #[trigger] s[q], x) && !has_link(adj, x, s[q]) by {
        if has_link(adj, s[q], x) || has_link(adj, x, s[q]) {
            assert(touches_any(adj, s, x));
        }
    }
    assert forall|a: int, b: int| 0 <= a < t.len() && 0 <= b < t.len() implies !has_link(adj, #[trigger] t[a], #[trigger] t[b]) by {
        if a < s.len() {
            assert(t[a] == s[a]);
        }
        if b < s.len() {
            assert(t[b] == s[b]);
        }
    }
}

/// The first part of `parts` with no node linked (one way or the other) to `x` in the graph
/// `g`, if there is one.
fn first_open<E: LayoutEngine>(g: &Graph<E>, parts: &Vec<Vec<char>>, x: char) -> (r: Option<usize>)
    requires
        g.wf(),
    ensures
        match r {
            Some(j) => j < parts@.len() && !touches_any(g.adj(), parts@[j as int]@, x)
                && forall|i: int| 0 <= i < j ==> touches_any(g.adj(), (#[trigger] parts@[i])@, x),
            None => forall|j: int| 0 <= j < parts@.len() ==> touches_any(g.adj(), (#[trigger] parts@[j])@, x),
        },
{
    let mut j: usize = 0;
    while j < parts.len()
        invariant
            g.wf(),
            j <= parts@.len(),
            forall|i: int| 0 <= i < j ==> touches_any(g.adj(), (#[trigger] parts@[i])@, x),
        decreases parts@.len() - j,
    {
        if !linked_to_any(g, &parts[j], x) {
            return Some(j);
        }
        j = j + 1;
    }
    None
}

/// The nodes of `r` that `k` leads to in `m`.
pub open spec fn out_in(m: Adjacency, r: Set<char>, k: char) -> Set<char> {
    m[k].dom().intersect(r)
}

/// Whether `s` holds, in increasing order, the leaves among the nodes `r` of `m`: the nodes of
/// `r` that lead to exactly one node of `r`.
pub open spec fn lists_leaves(m: Adjacency, r: Set<char>, s: Seq<char>) -> bool {
    &&& increasing(s)
    &&& forall|k: char| #[trigger] s.contains(k) <==> r.contains(k) && out_in(m, r, k).len() == 1
}

/// The leaves among the nodes `r` of `m`, in increasing order.
pub open spec fn leaves_among(m: Adjacency, r: Set<char>) -> Seq<char> {
    choose|s: Seq<char>| lists_leaves(m, r, s)
}

/// The node of `r` that the leaf `k` leads to in `m`.
pub open spec fn partner(m: Adjacency, r: Set<char>, k: char) -> char {
    out_in(m, r, k).choose()
}

/// The leaves taken away from the nodes `r` of `m`, each with the node it leads to, and the
/// nodes left. Each round lists the leaves among the nodes left and takes them away in
/// increasing order, but stops with one node left; the rounds go on while a round takes
/// every leaf it lists and leaves a node at least (such a round takes a node at least, so
/// the test on the number of nodes left always holds: it shows that the rounds end).
pub open spec fn pruned(m: Adjacency, r: Set<char>) -> (Set<char>, Seq<(char, char)>)
    decreases r.len(),
{
    let ls = leaves_among(m, r);
    let pairs = ls.map_values(|k: char| (k, partner(m, r, k)));
    if ls.len() == 0 {
        (r, Seq::empty())
    } else if ls.len() < r.len() {
        let r2 = r - ls.to_set();
        if r2.len() < r.len() {
            let rest = pruned(m, r2);
            (rest.0, pairs + rest.1)
        } else {
            (r2, pairs)
        }
    } else {
        (r - ls.take(r.len() - 1).to_set(), pairs)
    }
}

/// Two increasing sequences that hold the same characters are equal.
pub proof fn lemma_increasing_unique(s1: Seq<char>, s2: Seq<char>)
    requires
        increasing(s1),
        increasing(s2),
        forall|k: char| #[trigger] s1.contains(k) <==> s2.contains(k),
    ensures
        s1 == s2,
    decreases s1.len(),
{
    reveal(increasing);
    if s1.len() == 0 {
        if s2.len() > 0 {
            assert(s2.contains(s2[0]));
            assert(s1.contains(s2[0]));
        }
        assert(s1 =~= s2);
    } else {
        if s2.len() == 0 {
            assert(s1.contains(s1[0]));
        }
        let a = s1.last();
        let b = s2.last();
        assert(s1.contains(a));
        assert(s2.contains(b));
        assert(s1.contains(b));
        assert(s2.contains(a));
        let ib = s1.index_of(b);
        let ia = s2.index_of(a);
        assert(0 <= ib < s1.len() && s1[ib] == b);
        assert(0 <= ia < s2.len() && s2[ia] == a);
        assert((b as u32) <= (a as u32)) by {
            if ib < s1.len() - 1 {
                assert((s1[ib] as u32) < (s1[s1.len() - 1] as u32));
            }
        }
        assert((a as u32) <= (b as u32)) by {
            if ia < s2.len() - 1 {
                assert((s2[ia] as u32) < (s2[s2.len() - 1] as u32));
            }
        }
        <char as crate::keymap::MapKey>::lemma_rank_injective(a, b);
        assert(a == b);
        let t1 = s1.drop_last();
        let t2 = s2.drop_last();
        assert forall|k: char| #[trigger] t1.contains(k) implies t2.contains(k) by {
            let i = t1.index_of(k);
            assert(s1[i] == k);
            assert((k as u32) < (a as u32));
            assert(s1.contains(k));
            assert(s2.contains(k));
            let j = s2.index_of(k);
            assert(j != s2.len() - 1);
            assert(t2[j] == k);
        }
        assert forall|k: char| #[trigger] t2.contains(k) implies t1.contains(k) by {
            let i = t2.index_of(k);
            assert(s2[i] == k);
            assert((k as u32) < (b as u32));
            assert(s1.contains(k));
            let j = s1.index_of(k);
            assert(j != s1.len() - 1);
            assert(t1[j] == k);
        }
        lemma_increasing_unique(t1, t2);
        assert(s1 =~= t1.push(a));
        assert(s2 =~= t2.push(b));
    }
}

/// The only element of a finite set of one element.
proof fn lemma_only_element(s: Set<char>, t: char)
    requires
        s.finite(),
        s.len() == 1,
        s.contains(t),
    ensures
        s.choose() == t,
{
    let c = s.choose();
    if c != t {
        assert(s.remove(t).contains(c));
        assert(s.remove(t).len() == 0);
    }
}

/// The leaves that `leaves_of` lists among the nodes of `rows`, which keeps the links of `m`
/// between its nodes, are those of `leaves_among`, each with its partner.
proof fn lemma_round_leaves(rows: KeyMap<char, KeyMap<char, i8>>, m: Adjacency, v: Seq<(char, char)>)
    requires
        rows_wf(rows),
        forall|k: char| #[trigger] rows@.contains_key(k) ==> m.contains_key(k),
        forall|a: char, b: char| #[trigger] has_link(rows_view(rows), a, b)
            <==> has_link(m, a, b) && rows@.contains_key(a) && rows@.contains_key(b),
        forall|j: int| 0 <= j < v.len() ==> rows@.contains_key((#[trigger] v[j]).0)
            && has_link(rows_view(rows), v[j].0, v[j].1),
        forall|j: int| 0 <= j < v.len() ==> rows@[(#[trigger] v[j]).0].spec_len() == 1,
        forall|k: char| rows@.contains_key(k) && rows@[k].spec_len() == 1 ==> exists|j: int| 0 <= j < v.len() && (#[trigger] v[j]).0 == k,
        forall|a: int, b: int| 0 <= a < b < v.len() ==> rows.keys().index_of((#[trigger] v[a]).0)
            < rows.keys().index_of((#[trigger] v[b]).0),
    ensures
        v == leaves_among(m, rows@.dom()).map_values(|k: char| (k, partner(m, rows@.dom(), k))),
{
    let r = rows@.dom();
    rows.lemma_keys();
    assert forall|k: char| #[trigger] rows@.contains_key(k) implies rows@[k]@.dom() =~= out_in(m, r, k)
        && rows@[k].spec_len() == out_in(m, r, k).len() && out_in(m, r, k).finite() by {
        assert forall|x: char| #[trigger] rows@[k]@.dom().contains(x) <==> out_in(m, r, k).contains(x) by {
            if rows@[k]@.dom().contains(x) {
                assert(has_link(rows_view(rows), k, x));
            }
            if out_in(m, r, k).contains(x) {
                assert(has_link(m, k, x));
                assert(has_link(rows_view(rows), k, x));
            }
        }
        rows@[k].lemma_keys();
    }
    let s = v.map_values(|p: (char, char)| p.0);
    reveal(increasing);
    assert forall|a: int, b: int| 0 <= a < b < s.len() implies ((#[trigger] s[a]) as u32) < ((#[trigger] s[b]) as u32) by {
        assert(s[a] == v[a].0 && s[b] == v[b].0);
        assert(rows.keys().contains(v[a].0));
        assert(rows.keys().contains(v[b].0));
        let ia = rows.keys().index_of(v[a].0);
        let ib = rows.keys().index_of(v[b].0);
        assert(rows.keys()[ia] == v[a].0 && rows.keys()[ib] == v[b].0);
        assert(ia < ib);
    }
    assert forall|k: char| #[trigger] s.contains(k) <==> r.contains(k) && out_in(m, r, k).len() == 1 by {
        if s.contains(k) {
            let j = s.index_of(k);
            assert(v[j].0 == k);
        }
        if r.contains(k) && out_in(m, r, k).len() == 1 {
            let j = choose|j: int| 0 <= j < v.len() && (#[trigger] v[j]).0 == k;
            assert(s[j] == k);
        }
    }
    assert(lists_leaves(m, r, s));
    let ls = leaves_among(m, r);
    assert(lists_leaves(m, r, ls));
    lemma_increasing_unique(s, ls);
    assert forall|j: int| 0 <= j < v.len() implies (#[trigger] v[j]).1 == partner(m, r, v[j].0) by {
        let k = v[j].0;
        assert(rows@[k]@.dom().contains(v[j].1));
        lemma_only_element(out_in(m, r, k), v[j].1);
    }
    assert(v =~= ls.map_values(|k: char| (k, partner(m, r, k))));
}

/// Whether the node at position `a` of `ns` leads to the node at position `b` in `adj`.
pub open spec fn leads(adj: Adjacency, ns: Seq<char>, a: int, b: int) -> bool {
    has_link(adj, ns[a], ns[b])
}

/// The number of positions from `lo` to `hi` that the node at position `j` of `ns` does not
/// lead to.
pub open spec fn open_count(adj: Adjacency, ns: Seq<char>, j: int, lo: int, hi: int) -> nat {
    false_count(Seq::new((hi + 1 - lo) as nat, |c: int| leads(adj, ns, j, lo + c)))
}

/// The first position, from `j` to `hi`, of largest `open_count` over positions `lo` to `hi`
/// (`idx`, of count `best`, when none from `j` on counts more).
pub open spec fn pick(adj: Adjacency, ns: Seq<char>, lo: int, hi: int, j: int, best: nat, idx: int) -> int
    decreases hi + 1 - j,
{
    if j > hi {
        idx
    } else {
        let c = open_count(adj, ns, j, lo, hi);
        if c > best {
            pick(adj, ns, lo, hi, j + 1, c, j)
        } else {
            pick(adj, ns, lo, hi, j + 1, best, idx)
        }
    }
}

/// `ns` with the entries at positions `a` and `b` exchanged.
pub open spec fn swapped(ns: Seq<char>, a: int, b: int) -> Seq<char> {
    ns.update(a, ns[b]).update(b, ns[a])
}

/// From `left` on, the first position before `right` that the node at position `i` leads to
/// (`right` when there is none).
pub open spec fn skip_open(adj: Adjacency, ns: Seq<char>, i: int, left: int, right: int) -> int
    decreases right - left,
{
    if left < right && !leads(adj, ns, i, left) {
        skip_open(adj, ns, i, left + 1, right)
    } else {
        left
    }
}

/// From `right` down, the first position that the node at position `i` does not lead to,
/// stopping at `left` (or as soon as `stop`).
pub open spec fn skip_linked(adj: Adjacency, ns: Seq<char>, i: int, left: int, right: int, stop: bool) -> int
    decreases right,
{
    if !stop && right > 0 && leads(adj, ns, i, right) {
        skip_linked(adj, ns, i, left, right - 1, left == right - 1)
    } else {
        right
    }
}

/// What a sweep of positions `left` to `right` decreases: twice the width, and one more
/// when the node at position `i` leads to the node at `left`.
pub open spec fn sweep_measure(adj: Adjacency, ns: Seq<char>, i: int, left: int, right: int) -> int {
    2 * (right + 1 - left) + if leads(adj, ns, i, left) { 1int } else { 0int }
}

/// The sweep of positions `left` to `right` around the node at position `i`: the nodes it
/// leads to go to the end, the others to the front (by exchanges, from both ends); the
/// order reached and the last `right`. (Each step lowers `sweep_measure`; the test on it
/// always holds and shows that the sweep ends.)
pub open spec fn sweep(adj: Adjacency, ns: Seq<char>, i: int, left: int, right: int) -> (Seq<char>, int)
    decreases sweep_measure(adj, ns, i, left, right),
{
    if left < right {
        let l2 = skip_open(adj, ns, i, left, right);
        let r2 = skip_linked(adj, ns, i, l2, right, false);
        let ns2 = if l2 < r2 && leads(adj, ns, i, l2) && !leads(adj, ns, i, r2) { swapped(ns, l2, r2) } else { ns };
        if 0 <= sweep_measure(adj, ns2, i, l2, r2) < sweep_measure(adj, ns, i, left, right) {
            sweep(adj, ns2, i, l2, r2)
        } else {
            (ns2, r2)
        }
    } else {
        (ns, right)
    }
}

/// The greedy partition of the `n` nodes of `ns`, from position `i` on, with the sweep window
/// ending at `right`, the parts closed so far `parts` and the open part `part`: the node of
/// largest `open_count` in the window comes to position `i`; it closes the open part first
/// when linked (in `u`) to one of its nodes, and joins it; the window is swept around it; the
/// part closes when it is the last node or leads to the next one.
pub open spec fn greedy(adj: Adjacency, u: Adjacency, n: int, ns: Seq<char>, i: int, right: int, parts: Seq<Seq<char>>, part: Seq<char>) -> Seq<Seq<char>>
    decreases n - i,
{
    if i >= n {
        if part.len() > 0 {
            parts.push(part)
        } else {
            parts
        }
    } else {
        let r0 = if right < i { n - 1 } else { right };
        let idx = pick(adj, ns, i, r0, i, 0, 0);
        let ns1 = swapped(ns, i, idx);
        let x = ns1[i];
        let parts1 = if touches_any(u, part, x) { parts.push(part) } else { parts };
        let part1 = if touches_any(u, part, x) { seq![x] } else { part.push(x) };
        let sw = sweep(adj, ns1, i, i, r0);
        if i == n - 1 || leads(adj, sw.0, i, i + 1) {
            greedy(adj, u, n, sw.0, i + 1, n - 1, parts1.push(part1), Seq::empty())
        } else {
            greedy(adj, u, n, sw.0, i + 1, sw.1, parts1, part1)
        }
    }
}

/// The nodes of `r`, in increasing order.
pub open spec fn in_order(r: Set<char>) -> Seq<char> {
    choose|s: Seq<char>| increasing(s) && forall|k: char| #[trigger] s.contains(k) <==> r.contains(k)
}

/// The partition that `quick_partition` makes of the nodes of `adj`: the leaves taken away
/// (`pruned`), the greedy partition of the nodes left, taken in increasing order (`greedy`),
/// then the leaves put back (`put_back_all`).
pub open spec fn quick_parts(adj: Adjacency) -> Seq<Seq<char>> {
    let u = undirected(adj);
    let pr = pruned(adj, adj.dom());
    let ns = in_order(pr.0);
    put_back_all(u, greedy(adj, u, ns.len() as int, ns, 0, ns.len() - 1, Seq::empty(), Seq::empty()), pr.1, pr.1.len() as int)
}

/// The nodes of `r` in increasing order are those of any increasing sequence that holds them.
pub proof fn lemma_in_order(s: Seq<char>, r: Set<char>)
    requires
        increasing(s),
        forall|k: char| #[trigger] s.contains(k) <==> r.contains(k),
    ensures
        in_order(r) == s,
{
    let ord = in_order(r);
    assert(increasing(s) && forall|k: char| #[trigger] s.contains(k) <==> r.contains(k));
    assert(increasing(ord) && forall|k: char| #[trigger] ord.contains(k) <==> r.contains(k));
    lemma_increasing_unique(s, ord);
}

/// Whether a part of `parts` holds `x`.
pub open spec fn held(parts: Seq<Seq<char>>, x: char) -> bool {
    exists|p: int| 0 <= p < parts.len() && (#[trigger] parts[p]).contains(x)
}

/// The index of the first part of `parts`, from index `j` on, with no node linked (one way or
/// the other) to `x` in `adj`; `parts.len()` when there is none.
pub open spec fn first_open_from(adj: Adjacency, parts: Seq<Seq<char>>, x: char, j: int) -> int
    decreases parts.len() - j,
{
    if j >= parts.len() {
        parts.len() as int
    } else if !touches_any(adj, parts[j], x) {
        j
    } else {
        first_open_from(adj, parts, x, j + 1)
    }
}

/// The parts once the leaf `x` is put back: unchanged when a part holds it already; else `x`
/// joins the first part with no node linked to it, or a new part of its own when there is
/// none.
pub open spec fn put_back(adj: Adjacency, parts: Seq<Seq<char>>, x: char) -> Seq<Seq<char>> {
    if held(parts, x) {
        parts
    } else {
        let j = first_open_from(adj, parts, x, 0);
        if j < parts.len() {
            parts.update(j, parts[j].push(x))
        } else {
            parts.push(seq![x])
        }
    }
}

/// The parts once the leaves (first nodes) of the first `k` pairs of `leafs` are put back, from
/// the last to the first.
pub open spec fn put_back_all(adj: Adjacency, parts: Seq<Seq<char>>, leafs: Seq<(char, char)>, k: int) -> Seq<Seq<char>>
    decreases k,
{
    if k <= 0 {
        parts
    } else {
        put_back_all(adj, put_back(adj, parts, leafs[k - 1].0), leafs, k - 1)
    }
}

/// The first open part from `from` on is `j` when every part from `from` to `j` (excluded) is
/// linked to `x` and part `j` is not (or `j` is the number of parts).
proof fn lemma_first_open_at(adj: Adjacency, parts: Seq<Seq<char>>, x: char, from: int, j: int)
    requires
        0 <= from <= j <= parts.len(),
        j < parts.len() ==> !touches_any(adj, parts[j], x),
        forall|i: int| from <= i < j ==> touches_any(adj, #[trigger] parts[i], x),
    ensures
        first_open_from(adj, parts, x, from) == j,
    decreases j - from,
{
    if from < j {
        lemma_first_open_at(adj, parts, x, from + 1, j);
    }
}

/// Whether `k` is the first node of a pair of `s`.
pub open spec fn takes_first(s: Seq<(char, char)>, k: char) -> bool {
    exists|m: int| 0 <= m < s.len() && (#[trigger] s[m]).0 == k
}

pub struct Coloration {}

impl Coloration {
    /// Takes the leaves away, again and again (each with the node it leads to, in the order
    /// taken), until none is left or a single node remains; each leaf taken is stroked in the
    /// color of what is left aside.
    fn prune<E: LayoutEngine>(cg: &mut Graph<E>, rows: &mut KeyMap<char, KeyMap<char, i8>>, Ghost(dom): Ghost<Set<char>>) -> (leafs: Vec<(char, char)>)
        requires
            old(cg).wf(),
            !old(cg).is_paused(),
            old(cg).adj().dom() == dom,
            rows_wf(*old(rows)),
            old(rows).spec_len() >= 1,
            forall|k: char| #[trigger] old(rows)@.contains_key(k) ==> dom.contains(k),
            forall|a: char, b: char| #[trigger] has_link(rows_view(*old(rows)), a, b) ==> dom.contains(a) && dom.contains(b),
            forall|a: char, b: char| #[trigger] has_link(rows_view(*old(rows)), a, b) ==> old(rows)@.contains_key(b),
        ensures
            final(cg).wf(),
            !final(cg).is_paused(),
            final(cg).adj() == old(cg).adj(),
            rows_wf(*final(rows)),
            final(rows).spec_len() >= 1,
            forall|k: char| #[trigger] final(rows)@.contains_key(k) ==> dom.contains(k),
            forall|k: char| #![trigger old(rows)@.contains_key(k)] #![trigger final(rows)@.contains_key(k)]
                old(rows)@.contains_key(k) <==> final(rows)@.contains_key(k) || takes_first(leafs@, k),
            forall|a: char, b: char| #[trigger] has_link(rows_view(*final(rows)), a, b)
                <==> has_link(rows_view(*old(rows)), a, b) && final(rows)@.contains_key(a) && final(rows)@.contains_key(b),
            forall|j: int| 0 <= j < leafs@.len() ==> dom.contains((#[trigger] leafs@[j]).0) && dom.contains(leafs@[j].1),
            forall|j: int| 0 <= j < leafs@.len() ==> has_link(rows_view(*old(rows)), (#[trigger] leafs@[j]).0, leafs@[j].1),
            forall|a: int, b: int| 0 <= a < b < leafs@.len() ==> (#[trigger] leafs@[a]).0 != (#[trigger] leafs@[b]).0,
            final(rows).spec_len() == 1 || forall|j: int| 0 <= j < leafs@.len() ==> !final(rows)@.contains_key((#[trigger] leafs@[j]).0),
            final(rows).spec_len() == 1 || forall|k: char| #[trigger] final(rows)@.contains_key(k) ==> final(rows)@[k].spec_len() != 1,
            pruned(rows_view(*old(rows)), old(rows)@.dom()) == (final(rows)@.dom(), leafs@),
    {
        let ghost rows0 = rows_view(*rows);
        let ghost dom0 = rows@.dom();
        let ghost adj0 = cg.adj();
        let mut leafs: Vec<(char, char)> = Vec::new();
        let mut leaf_added: bool = true;
        proof {
            assert(leafs@ + pruned(rows0, dom0).1 =~= pruned(rows0, dom0).1);
        }
        while leaf_added
            invariant
                cg.wf(),
                !cg.is_paused(),
                cg.adj().dom() == dom,
                cg.adj() == adj0,
                rows_wf(*rows),
                rows.spec_len() >= 1,
                forall|k: char| #[trigger] rows@.contains_key(k) ==> dom.contains(k),
                rows0 == rows_view(*old(rows)),
                dom0 == old(rows)@.dom(),
                forall|k: char| #![trigger dom0.contains(k)] #![trigger rows@.contains_key(k)]
                    dom0.contains(k) <==> rows@.contains_key(k) || takes_first(leafs@, k),
                forall|a: char, b: char| #[trigger] has_link(rows_view(*rows), a, b)
                    <==> has_link(rows0, a, b) && rows@.contains_key(a) && rows@.contains_key(b),
                forall|j: int| 0 <= j < leafs@.len() ==> dom.contains((#[trigger] leafs@[j]).0) && dom.contains(leafs@[j].1),
                forall|j: int| 0 <= j < leafs@.len() ==> has_link(rows0, (#[trigger] leafs@[j]).0, leafs@[j].1),
                forall|a: char, b: char| #[trigger] has_link(rows0, a, b) ==> dom.contains(a) && dom.contains(b),
                !leaf_added ==> rows.spec_len() == 1 || forall|k: char| #[trigger] rows@.contains_key(k) ==> rows@[k].spec_len() != 1,
                forall|a: int, b: int| 0 <= a < b < leafs@.len() ==> (#[trigger] leafs@[a]).0 != (#[trigger] leafs@[b]).0,
                leaf_added ==> forall|j: int| 0 <= j < leafs@.len() ==> !rows@.contains_key((#[trigger] leafs@[j]).0),
                !leaf_added ==> rows.spec_len() == 1 || forall|j: int| 0 <= j < leafs@.len() ==> !rows@.contains_key((#[trigger] leafs@[j]).0),
                leaf_added ==> pruned(rows0, dom0) == (pruned(rows0, rows@.dom()).0, leafs@ + pruned(rows0, rows@.dom()).1),
                !leaf_added ==> pruned(rows0, dom0) == (rows@.dom(), leafs@),
            decreases rows.spec_len() + if leaf_added { 1int } else { 0int },
        {
            let leafs_add = Self::leaves(rows);
            proof {
                lemma_round_leaves(*rows, rows0, leafs_add@);
            }
            if leafs_add.len() == 0 {
                proof {
                    let ls = leaves_among(rows0, rows@.dom());
                    assert(ls.len() == 0);
                    assert(leafs@ + Seq::<(char, char)>::empty() =~= leafs@);
                }
                leaf_added = false;
            } else {
                let ghost len0 = rows.spec_len();
                let ghost rows_start = *rows;
                let ghost lo = leafs@;
                proof {
                    assert forall|m: int| 0 <= m < leafs_add@.len() implies has_link(rows0, (#[trigger] leafs_add@[m]).0, leafs_add@[m].1) by {
                        assert(has_link(rows_view(*rows), leafs_add@[m].0, leafs_add@[m].1));
                    }
                }
                let mut j: usize = 0;
                while j < leafs_add.len() && leaf_added
                    invariant
                        cg.wf(),
                        !cg.is_paused(),
                        cg.adj().dom() == dom,
                        cg.adj() == adj0,
                        rows_wf(*rows),
                        rows.spec_len() >= 1,
                        rows.spec_len() <= len0,
                        j == 0 ==> *rows == rows_start,
                        leaf_added && j > 0 ==> rows.spec_len() < len0,
                        leafs_add@.len() > 0,
                        rows_start@.contains_key(leafs_add@[0].0),
                        forall|m: int| 0 <= m < leafs_add@.len() ==> rows_start@.contains_key((#[trigger] leafs_add@[m]).0),
                        forall|m: int| 0 <= m < leafs_add@.len() ==> has_link(rows0, (#[trigger] leafs_add@[m]).0, leafs_add@[m].1),
                        forall|k: char| #![trigger dom0.contains(k)] #![trigger rows_start@.contains_key(k)]
                            dom0.contains(k) <==> rows_start@.contains_key(k) || takes_first(lo, k),
                        forall|k: char| #[trigger] rows@.contains_key(k) ==> dom.contains(k),
                        forall|a: char, b: char| #[trigger] has_link(rows_view(*rows), a, b) ==> has_link(rows0, a, b),
                        forall|q: int| 0 <= q < leafs_add@.len() ==> dom.contains((#[trigger] leafs_add@[q]).0) && dom.contains(leafs_add@[q].1),
                        j <= leafs_add@.len(),
                        leafs@ == lo,
                        forall|q: int| 0 <= q < j ==> !rows@.contains_key((#[trigger] leafs_add@[q]).0),
                        forall|m: int| 0 <= m < lo.len() ==> !rows@.contains_key((#[trigger] lo[m]).0),
                        !leaf_added ==> rows.spec_len() == 1,
                        !leaf_added ==> j < leafs_add@.len(),
                        rows.spec_len() + j == len0,
                        forall|a: int, b: int| 0 <= a < b < leafs_add@.len() ==> (#[trigger] leafs_add@[a]).0 != (#[trigger] leafs_add@[b]).0,
                        forall|k: char| #![trigger rows_start@.contains_key(k)] #![trigger rows@.contains_key(k)]
                            rows_start@.contains_key(k) <==> rows@.contains_key(k)
                                || exists|q: int| 0 <= q < j && (#[trigger] leafs_add@[q]).0 == k,
                        forall|a: char, b: char| #[trigger] has_link(rows_view(*rows), a, b)
                            <==> has_link(rows0, a, b) && rows@.contains_key(a) && rows@.contains_key(b),
                    decreases leafs_add@.len() - j + if leaf_added { 1int } else { 0int },
                {
                    if rows.len() == 1 {
                        leaf_added = false;
                    } else {
                        let leaf = leafs_add[j].0;
                        let ghost pre = *rows;
                        drop_node(rows, leaf);
                        proof {
                            assert forall|k: char| #![trigger rows_start@.contains_key(k)] #![trigger rows@.contains_key(k)]
                                rows_start@.contains_key(k) <==> rows@.contains_key(k)
                                    || exists|q: int| 0 <= q < j + 1 && (#[trigger] leafs_add@[q]).0 == k by {
                                if rows_start@.contains_key(k) && !rows@.contains_key(k) && k != leaf {
                                    assert(pre@.contains_key(k) || exists|q: int| 0 <= q < j && (#[trigger] leafs_add@[q]).0 == k);
                                }
                                if exists|q: int| 0 <= q < j + 1 && (#[trigger] leafs_add@[q]).0 == k {
                                    let q = choose|q: int| 0 <= q < j + 1 && (#[trigger] leafs_add@[q]).0 == k;
                                    if q == j {
                                        assert(rows_start@.contains_key(leafs_add@[q].0));
                                    }
                                }
                                if rows@.contains_key(k) {
                                    assert(pre@.contains_key(k));
                                }
                            }
                        }
                        cg.color_node(leaf, Color::disabled());
                        j = j + 1;
                    }
                }
                let mut q: usize = 0;
                while q < leafs_add.len()
                    invariant
                        q <= leafs_add@.len(),
                        forall|m: int| 0 <= m < leafs_add@.len() ==> dom.contains((#[trigger] leafs_add@[m]).0) && dom.contains(leafs_add@[m].1),
                        forall|m: int| 0 <= m < leafs@.len() ==> dom.contains((#[trigger] leafs@[m]).0) && dom.contains(leafs@[m].1),
                        leafs@ == lo + leafs_add@.take(q as int),
                        forall|a: int, b: int| 0 <= a < b < leafs@.len() ==> (#[trigger] leafs@[a]).0 != (#[trigger] leafs@[b]).0,
                        forall|a: int, b: int| 0 <= a < b < leafs_add@.len() ==> (#[trigger] leafs_add@[a]).0 != (#[trigger] leafs_add@[b]).0,
                        forall|m: int| 0 <= m < leafs_add@.len() ==> rows_start@.contains_key((#[trigger] leafs_add@[m]).0),
                        forall|m: int| 0 <= m < lo.len() ==> !rows_start@.contains_key((#[trigger] lo[m]).0),
                        forall|m: int| 0 <= m < leafs_add@.len() ==> has_link(rows0, (#[trigger] leafs_add@[m]).0, leafs_add@[m].1),
                        forall|m: int| 0 <= m < leafs@.len() ==> has_link(rows0, (#[trigger] leafs@[m]).0, leafs@[m].1),
                    decreases leafs_add@.len() - q,
                {
                    let ghost before = leafs@;
                    leafs.push(leafs_add[q]);
                    proof {
                        assert(leafs@ =~= lo + leafs_add@.take(q + 1));
                        assert forall|a: int, b: int| 0 <= a < b < leafs@.len() implies (#[trigger] leafs@[a]).0 != (#[trigger] leafs@[b]).0 by {
                            if b == before.len() {
                                assert(leafs@[b] == leafs_add@[q as int]);
                                if a < lo.len() {
                                    assert(leafs@[a] == lo[a]);
                                } else {
                                    assert(leafs@[a] == leafs_add@[a - lo.len()]);
                                }
                            } else {
                                assert(leafs@[a] == before[a]);
                                assert(leafs@[b] == before[b]);
                            }
                        }
                    }
                    q = q + 1;
                }
                proof {
                    assert(leafs_add@.take(q as int) =~= leafs_add@);
                    assert forall|k: char| #![trigger dom0.contains(k)] #![trigger rows@.contains_key(k)]
                        dom0.contains(k) <==> rows@.contains_key(k) || takes_first(leafs@, k) by {
                        if dom0.contains(k) && !rows@.contains_key(k) {
                            if takes_first(lo, k) {
                                let m = choose|m: int| 0 <= m < lo.len() && (#[trigger] lo[m]).0 == k;
                                assert(leafs@[m] == lo[m]);
                            } else {
                                assert(rows_start@.contains_key(k));
                                let q = choose|q: int| 0 <= q < j && (#[trigger] leafs_add@[q]).0 == k;
                                assert(leafs@[lo.len() + q] == leafs_add@[q]);
                            }
                        }
                        if takes_first(leafs@, k) {
                            let m = choose|m: int| 0 <= m < leafs@.len() && (#[trigger] leafs@[m]).0 == k;
                            if m < lo.len() {
                                assert(leafs@[m] == lo[m]);
                                assert(takes_first(lo, k));
                            } else {
                                assert(leafs@[m] == leafs_add@[m - lo.len()]);
                                assert(rows_start@.contains_key(k));
                            }
                        }
                        if rows@.contains_key(k) {
                            assert(rows_start@.contains_key(k));
                        }
                    }
                    if leaf_added {
                        assert forall|m: int| 0 <= m < leafs@.len() implies !rows@.contains_key((#[trigger] leafs@[m]).0) by {
                            if m < lo.len() {
                                assert(leafs@[m] == lo[m]);
                            } else {
                                assert(leafs@[m] == leafs_add@[m - lo.len()]);
                            }
                        }
                    }
                }
                proof {
                    let rs = rows_start@.dom();
                    let ls = leaves_among(rows0, rs);
                    let pairs = ls.map_values(|k: char| (k, partner(rows0, rs, k)));
                    assert(pairs == leafs_add@);
                    assert(ls.len() == leafs_add@.len());
                    rows_start.lemma_keys();
                    rows.lemma_keys();
                    assert(rs.len() == len0);
                    let d = if leaf_added { ls.len() as int } else { rs.len() - 1 };
                    assert(d == j);
                    assert forall|k: char| #[trigger] rows@.dom().contains(k) <==> (rs - ls.take(d).to_set()).contains(k) by {
                        if rows@.contains_key(k) {
                            assert(rs.contains(k));
                            if ls.take(d).to_set().contains(k) {
                                let q = ls.take(d).index_of(k);
                                assert(ls[q] == leafs_add@[q].0);
                            }
                        }
                        if (rs - ls.take(d).to_set()).contains(k) {
                            assert(rows_start@.contains_key(k));
                            if !rows@.contains_key(k) {
                                let q = choose|q: int| 0 <= q < j && (#[trigger] leafs_add@[q]).0 == k;
                                assert(ls[q] == k);
                                assert(ls.take(d)[q] == k);
                                assert(ls.take(d).to_set().contains(k));
                            }
                        }
                    }
                    assert(rows@.dom() =~= rs - ls.take(d).to_set());
                    if leaf_added {
                        assert(ls.take(d) =~= ls);
                        assert(rows@.dom().len() < rs.len());
                        let rest = pruned(rows0, rows@.dom());
                        assert(pruned(rows0, rs) == (rest.0, pairs + rest.1));
                        assert(lo + (pairs + rest.1) =~= leafs@ + rest.1);
                    } else {
                        assert(pruned(rows0, rs) == (rows@.dom(), pairs));
                    }
                }
            }
        }
        leafs
    }

    /// The leaves of `rows` (see `leaves_of`), which are nodes of `rows` that lead to nodes of
    /// the graph.
    fn leaves(rows: &KeyMap<char, KeyMap<char, i8>>) -> (v: Vec<(char, char)>)
        requires
            rows_wf(*rows),
        ensures
            forall|j: int| 0 <= j < v@.len() ==> rows@.contains_key((#[trigger] v@[j]).0)
                && has_link(rows_view(*rows), v@[j].0, v@[j].1),
            forall|a: int, b: int| 0 <= a < b < v@.len() ==> (#[trigger] v@[a]).0 != (#[trigger] v@[b]).0,
            forall|j: int| 0 <= j < v@.len() ==> rows@[(#[trigger] v@[j]).0].spec_len() == 1,
            forall|k: char| rows@.contains_key(k) && rows@[k].spec_len() == 1 ==> exists|j: int| 0 <= j < v@.len() && (#[trigger] v@[j]).0 == k,
            forall|a: int, b: int| 0 <= a < b < v@.len() ==> rows.keys().index_of((#[trigger] v@[a]).0)
                < rows.keys().index_of((#[trigger] v@[b]).0),
    {
        leaves_of(rows)
    }

    /// Partitions nodes in empty subgraphs, each meant to be colored with a single color:
    /// every node is in exactly one partition, and no two nodes of a partition are linked.
    /// The leaves are taken away first (again and again); a greedy search then gathers the
    /// other nodes, partition after partition, each colored in turn (a node closes its
    /// partition when the next one is linked to it, and a partition is closed before taking a
    /// node linked to one of its nodes); each leaf then goes back, in reverse order, to the
    /// first partition none of whose nodes it is linked to (a new one when there is none); at
    /// last the partitions are placed one after the other on a circle. The partitions are
    /// exactly `quick_parts` of the graph.
    #[verifier::rlimit(60)]
    pub fn quick_partition<E: LayoutEngine>(g: &Graph<E>) -> (r: (Graph<E>, Vec<Vec<char>>))
        requires
            g.wf(),
            g.describable(),
            connected(g.adj()),
            exists|k: char| g.adj().contains_key(k),
        ensures
            r.0.wf(),
            r.0.adj() == undirected(g.adj()),
            forall|p: int| 0 <= p < r.1@.len() ==> (#[trigger] r.1@[p])@.len() > 0,
            forall|p: int, q: int| 0 <= p < r.1@.len() && 0 <= q < r.1@[p]@.len() ==> g.adj().contains_key(#[trigger] r.1@[p]@[q]),
            flat(comps_view(r.1@)).no_duplicates(),
            forall|k: char| #[trigger] g.adj().contains_key(k) ==> exists|p: int, q: int|
                0 <= p < r.1@.len() && 0 <= q < r.1@[p]@.len() && r.1@[p]@[q] == k,
            forall|p: int| 0 <= p < r.1@.len() ==> independent(undirected(g.adj()), (#[trigger] r.1@[p])@),
            comps_view(r.1@) == quick_parts(g.adj()),
    {
        let mut cg = undirected_copy(g);
        let ghost u = cg.adj();
        let ghost dom = g.adj().dom();
        let (_, _components) = Connectivity::components(g);
        let mut adj_list = g.adjacency_list();
        proof {
            g.lemma_nodes_finite();
            g.lemma_adjacency();
            let k = choose|k: char| g.adj().contains_key(k);
            assert(g.node_seq().to_set().contains(k));
            assert(adj_list.keys().len() > 0);
            adj_list.lemma_keys();
        }
        let ghost adj0 = g.adj();
        proof {
            assert(adj_list@.dom() =~= rows_view(adj_list).dom());
        }
        let ghost pr = pruned(adj0, adj0.dom());
        let leafs = Self::prune(&mut cg, &mut adj_list, Ghost(dom));
        proof {
            adj_list.lemma_keys();
            assert(rows_view(adj_list).dom() =~= adj_list@.dom());
        }
        let mut nodes = adj_list.keys_vec();
        proof {
            assert(pr == (adj_list@.dom(), leafs@));
            assert(increasing(nodes@)) by {
                reveal(increasing);
                assert forall|a: int, b: int| 0 <= a < b < nodes@.len() implies ((#[trigger] nodes@[a]) as u32) < ((#[trigger] nodes@[b]) as u32) by {
                    assert(crate::keymap::MapKey::rank(adj_list.keys()[a]) < crate::keymap::MapKey::rank(adj_list.keys()[b]));
                }
            }
            assert forall|k: char| #[trigger] nodes@.contains(k) <==> pr.0.contains(k) by {
                assert(adj_list@.contains_key(k) <==> adj_list.keys().contains(k));
            }
            lemma_in_order(nodes@, pr.0);
        }
        let n = nodes.len();
        let mut matrix: Vec<Vec<bool>> = Vec::new();
        let mut a: usize = 0;
        while a < n
            invariant
                n == nodes@.len(),
                nodes@ == adj_list.keys(),
                rows_wf(adj_list),
                forall|k: char| #[trigger] adj_list@.contains_key(k) <==> adj_list.keys().contains(k),
                forall|x: char, y: char| #[trigger] has_link(rows_view(adj_list), x, y) ==> has_link(g.adj(), x, y),
                forall|k: char| #[trigger] adj_list@.contains_key(k) ==> dom.contains(k),
                dom == g.adj().dom(),
                crate::graph::adjacency_wf(g.adj()),
                a <= n,
                matrix@.len() == a,
                forall|q: int| 0 <= q < a ==> (#[trigger] matrix@[q])@.len() == n,
                forall|q: int| 0 <= q < a ==> !(#[trigger] matrix@[q])@[q],
                adj0 == g.adj(),
                forall|x: char, y: char| adj_list@.contains_key(x) && adj_list@.contains_key(y)
                    ==> (#[trigger] has_link(rows_view(adj_list), x, y) <==> has_link(adj0, x, y)),
                forall|q: int, b: int| 0 <= q < a && 0 <= b < n ==> (#[trigger] matrix@[q]@[b]) == leads(adj0, nodes@, q, b),
            decreases n - a,
        {
            assert(adj_list.keys().contains(nodes@[a as int]));
            let row_a = adj_list.get(&nodes[a]).unwrap();
            let mut v: Vec<bool> = Vec::new();
            let mut b: usize = 0;
            while b < n
                invariant
                    b <= n,
                    n == nodes@.len(),
                    a < n,
                    v@.len() == b,
                    row_a.wf(),
                    row_a@ == rows_view(adj_list)[nodes@[a as int]],
                    adj_list@.contains_key(nodes@[a as int]),
                    forall|x: char, y: char| #[trigger] has_link(rows_view(adj_list), x, y) ==> has_link(g.adj(), x, y),
                    crate::graph::adjacency_wf(g.adj()),
                    a < b ==> !v@[a as int],
                    nodes@ == adj_list.keys(),
                    forall|k: char| #[trigger] adj_list@.contains_key(k) <==> adj_list.keys().contains(k),
                    adj0 == g.adj(),
                    forall|x: char, y: char| adj_list@.contains_key(x) && adj_list@.contains_key(y)
                        ==> (#[trigger] has_link(rows_view(adj_list), x, y) <==> has_link(adj0, x, y)),
                    forall|c: int| 0 <= c < b ==> (#[trigger] v@[c]) == leads(adj0, nodes@, a as int, c),
                decreases n - b,
            {
                let has = row_a.contains_key(&nodes[b]);
                proof {
                    assert(adj_list.keys().contains(nodes@[b as int]));
                    assert(has == has_link(rows_view(adj_list), nodes@[a as int], nodes@[b as int]));
                    if b == a && has {
                        assert(has_link(rows_view(adj_list), nodes@[a as int], nodes@[a as int]));
                    }
                }
                v.push(has);
                b = b + 1;
            }
            matrix.push(v);
            a = a + 1;
        }
        proof {
            assert forall|q: int| 0 <= q < n implies g.adj().contains_key(#[trigger] nodes@[q]) by {
                assert(adj_list.keys()[q] == nodes@[q]);
                assert(adj_list.keys().contains(nodes@[q]));
                assert(adj_list@.contains_key(nodes@[q]));
                assert(dom.contains(nodes@[q]));
            }
        }
        let ghost side = n as nat;
        let ghost core = adj_list@.dom();
        proof {
            adj_list.lemma_keys();
            assert(flat(comps_view(Seq::<Vec<char>>::empty())) + Seq::<char>::empty() =~= nodes@.take(0));
            cg.lemma_adjacency();
        }
        let mut colors_it = ColorCycle::new();
        let mut color = colors_it.next_color();
        let mut colors: Vec<(u8, u8, u8)> = Vec::new();
        let mut partitions: Vec<Vec<char>> = Vec::new();
        let mut partition: Vec<char> = Vec::new();
        let mut right: usize = n - 1;
        let mut i: usize = 0;
        let ghost target = greedy(adj0, u, n as int, nodes@, 0, n - 1, Seq::empty(), Seq::empty());
        proof {
            assert(comps_view(partitions@) =~= Seq::<Seq<char>>::empty());
            assert(partition@ =~= Seq::<char>::empty());
        }
        while i < n
            invariant
                forall|a: int, b: int| 0 <= a < n && 0 <= b < n ==> (#[trigger] matrix@[a]@[b]) == leads(adj0, nodes@, a, b),
                greedy(adj0, u, n as int, nodes@, i as int, right as int, comps_view(partitions@), partition@) == target,
                cg.wf(),
                !cg.is_paused(),
                cg.adj() == u,
                u == undirected(g.adj()),
                u.dom() == dom,
                crate::graph::adjacency_wf(u),
                side == n,
                square(matrix@, side),
                forall|q: int| 0 <= q < n ==> !(#[trigger] matrix@[q])@[q],
                nodes@.len() == n,
                forall|q: int| 0 <= q < n ==> dom.contains(#[trigger] nodes@[q]),
                right < n,
                colors_it.wf(),
                colors@.len() == partitions@.len(),
                forall|p: int| 0 <= p < partitions@.len() ==> (#[trigger] partitions@[p])@.len() > 0,
                forall|p: int| 0 <= p < partitions@.len() ==> independent(u, (#[trigger] partitions@[p])@),
                independent(u, partition@),
                forall|p: int, q: int| 0 <= p < partitions@.len() && 0 <= q < partitions@[p]@.len() ==> dom.contains(#[trigger] partitions@[p]@[q]),
                forall|q: int| 0 <= q < partition@.len() ==> dom.contains(#[trigger] partition@[q]),
                forall|j: int| 0 <= j < leafs@.len() ==> dom.contains((#[trigger] leafs@[j]).0) && dom.contains(leafs@[j].1),
                nodes@.no_duplicates(),
                forall|x: char| #[trigger] nodes@.contains(x) <==> core.contains(x),
                flat(comps_view(partitions@)) + partition@ == nodes@.take(i as int),
                i <= n,
            decreases n - i,
        {
            let ghost right_in = right;
            let ghost ns0 = nodes@;
            let ghost parts0 = comps_view(partitions@);
            let ghost part0 = partition@;
            if right < i {
                right = n - 1;
            }
            let ghost r0 = right as int;
            let mut left = i;
            let mut maxi: usize = 0;
            let mut maxi_idx: usize = 0;
            let mut j: usize = left;
            while j <= right
                invariant
                    forall|a: int, b: int| 0 <= a < n && 0 <= b < n ==> (#[trigger] matrix@[a]@[b]) == leads(adj0, nodes@, a, b),
                    nodes@.len() == n,
                    pick(adj0, nodes@, i as int, right as int, j as int, maxi as nat, maxi_idx as int)
                        == pick(adj0, nodes@, i as int, right as int, i as int, 0, 0),
                    left == i,
                    i < n,
                    right < n,
                    left <= j,
                    j == left || j <= right + 1,
                    square(matrix@, side),
                    side == n,
                    maxi > 0 ==> left <= maxi_idx <= right,
                    j > left ==> maxi > 0,
                decreases right + 1 - j,
            {
                let cnt = count_false(&matrix[j], left, right);
                proof {
                    assert(matrix@[j as int]@.subrange(left as int, right + 1)
                        =~= Seq::new((right + 1 - left) as nat, |c: int| leads(adj0, nodes@, j as int, left + c)));
                }
                if cnt > maxi {
                    maxi = cnt;
                    maxi_idx = j;
                }
                j = j + 1;
            }
            assert(maxi > 0);
            assert(maxi_idx == pick(adj0, ns0, i as int, r0, i as int, 0, 0));
            let ghost m0 = matrix@;
            swap_places(&mut matrix, i, maxi_idx, Ghost(side));
            proof {
                assert forall|q: int| 0 <= q < n implies !(#[trigger] matrix@[q])@[q] by {
                    let e = exchanged(i as int, maxi_idx as int, q);
                    assert(matrix@[q]@[q] == m0[e]@[e]);
                }
            }
            let ghost nodes_before = nodes@;
            swap_entries(&mut nodes, i, maxi_idx);
            proof {
                lemma_swap_keeps(nodes_before, i as int, maxi_idx as int, i as int);
                assert forall|a: int, b: int| 0 <= a < n && 0 <= b < n implies (#[trigger] matrix@[a]@[b]) == leads(adj0, nodes@, a, b) by {
                    let ea = exchanged(i as int, maxi_idx as int, a);
                    let eb = exchanged(i as int, maxi_idx as int, b);
                    assert(matrix@[a]@[b] == m0[ea]@[eb]);
                    assert(nodes@[a] == nodes_before[ea] && nodes@[b] == nodes_before[eb]);
                }
                assert(nodes@ == swapped(ns0, i as int, maxi_idx as int));
            }
            let ghost ns1 = nodes@;
            assert(dom.contains(nodes@[i as int]));
            if linked_to_any(&cg, &partition, nodes[i]) {
                let ghost parts_before = partitions@;
                let ghost part = partition@;
                partitions.push(partition);
                proof {
                    assert(comps_view(partitions@) =~= comps_view(parts_before).push(part));
                    lemma_flat_push(comps_view(parts_before), part);
                    assert(partitions@[parts_before.len() as int]@ == part);
                    assert forall|p: int, q: int| 0 <= p < partitions@.len() && 0 <= q < partitions@[p]@.len()
                        implies dom.contains(#[trigger] partitions@[p]@[q]) by {
                        if p < parts_before.len() {
                            assert(partitions@[p] == parts_before[p]);
                        }
                    }
                }
                partition = Vec::new();
                proof {
                    assert(flat(comps_view(partitions@)) + partition@ =~= nodes@.take(i as int));
                }
                colors.push(color);
                color = colors_it.next_color();
            }
            let ghost p0 = partition@;
            proof {
                assert(!has_link(u, nodes@[i as int], nodes@[i as int]));
                lemma_independent_push(u, p0, nodes@[i as int]);
            }
            partition.push(nodes[i]);
            proof {
                let fl = flat(comps_view(partitions@));
                assert(fl + p0 == nodes@.take(i as int));
                assert(nodes@.take(i + 1) =~= nodes@.take(i as int).push(nodes@[i as int]));
                assert(partition@ == p0.push(nodes@[i as int]));
                assert(fl + p0.push(nodes@[i as int]) =~= (fl + p0).push(nodes@[i as int]));
            }
            cg.color_node(nodes[i], color);
            let ghost parts1 = comps_view(partitions@);
            let ghost part1 = partition@;
            while left < right
                invariant
                    forall|a: int, b: int| 0 <= a < n && 0 <= b < n ==> (#[trigger] matrix@[a]@[b]) == leads(adj0, nodes@, a, b),
                    sweep(adj0, nodes@, i as int, left as int, right as int) == sweep(adj0, ns1, i as int, i as int, r0),
                    square(matrix@, side),
                    forall|q: int| 0 <= q < n ==> !(#[trigger] matrix@[q])@[q],
                    side == n,
                    i < n,
                    i <= left,
                    left <= right + 1,
                    i <= right,
                    right < n,
                    nodes@.len() == n,
                    forall|q: int| 0 <= q < n ==> dom.contains(#[trigger] nodes@[q]),
                    forall|c: int| i <= c < left ==> !(#[trigger] matrix@[i as int]@[c]),
                    nodes@.no_duplicates(),
                    forall|x: char| #[trigger] nodes@.contains(x) <==> core.contains(x),
                    flat(comps_view(partitions@)) + partition@ == nodes@.take(i + 1),
                decreases 2 * (right + 1 - left) + if matrix@[i as int]@[left as int] { 1int } else { 0int },
            {
                let ghost l0 = left;
                let ghost r0 = right;
                let ghost f0 = matrix@[i as int]@[left as int];
                let ghost ns_s = nodes@;
                while left < right && !matrix[i][left]
                    invariant
                        forall|a: int, b: int| 0 <= a < n && 0 <= b < n ==> (#[trigger] matrix@[a]@[b]) == leads(adj0, nodes@, a, b),
                        skip_open(adj0, nodes@, i as int, left as int, right as int) == skip_open(adj0, nodes@, i as int, l0 as int, r0 as int),
                        nodes@ == ns_s,
                        nodes@.len() == n,
                        square(matrix@, side),
                        side == n,
                        i <= left <= right,
                        right < n,
                        l0 <= left,
                        right == r0,
                        forall|c: int| i <= c < left ==> !(#[trigger] matrix@[i as int]@[c]),
                    decreases right - left,
                {
                    left = left + 1;
                }
                let mut stop = false;
                let ghost l2 = left as int;
                assert(l2 == skip_open(adj0, ns_s, i as int, l0 as int, r0 as int));
                while !stop && matrix[i][right]
                    invariant
                        forall|a: int, b: int| 0 <= a < n && 0 <= b < n ==> (#[trigger] matrix@[a]@[b]) == leads(adj0, nodes@, a, b),
                        skip_linked(adj0, nodes@, i as int, l2, right as int, stop) == skip_linked(adj0, nodes@, i as int, l2, r0 as int, false),
                        left == l2,
                        nodes@ == ns_s,
                        nodes@.len() == n,
                        square(matrix@, side),
                        side == n,
                        i <= left,
                        i <= right,
                        right < n,
                        right <= r0,
                        left <= right + 1,
                        stop ==> left == right && right < r0,
                        forall|c: int| i <= c < left ==> !(#[trigger] matrix@[i as int]@[c]),
                        forall|q: int| 0 <= q < n ==> !(#[trigger] matrix@[q])@[q],
                    decreases right,
                {
                    assert(right != i);
                    if left == right + 1 {
                        assert(!matrix@[i as int]@[right as int]);
                    }
                    right = right - 1;
                    stop = left == right;
                }
                assert(right == skip_linked(adj0, ns_s, i as int, l2, r0 as int, false));
                if left < right && matrix[i][left] && !matrix[i][right] {
                    let ghost before = matrix@;
                    swap_places(&mut matrix, left, right, Ghost(side));
                    let ghost nodes_before = nodes@;
                    swap_entries(&mut nodes, left, right);
                    proof {
                        assert forall|a: int, b: int| 0 <= a < n && 0 <= b < n implies (#[trigger] matrix@[a]@[b]) == leads(adj0, nodes@, a, b) by {
                            let ea = exchanged(left as int, right as int, a);
                            let eb = exchanged(left as int, right as int, b);
                            assert(matrix@[a]@[b] == before[ea]@[eb]);
                            assert(nodes@[a] == nodes_before[ea] && nodes@[b] == nodes_before[eb]);
                        }
                        assert(nodes@ == swapped(ns_s, left as int, right as int));
                        assert(left != i);
                        lemma_swap_keeps(nodes_before, left as int, right as int, i + 1);
                        assert forall|c: int| i <= c < left implies !(#[trigger] matrix@[i as int]@[c]) by {
                            assert(matrix@[i as int]@[c] == before[i as int]@[c]);
                        }
                        assert(matrix@[i as int]@[left as int] == before[i as int]@[right as int]);
                        assert forall|q: int| 0 <= q < n implies !(#[trigger] matrix@[q])@[q] by {
                            let e = exchanged(left as int, right as int, q);
                            assert(matrix@[q]@[q] == before[e]@[e]);
                        }
                    }
                }
                proof {
                    assert(0 <= sweep_measure(adj0, nodes@, i as int, left as int, right as int)
                        < sweep_measure(adj0, ns_s, i as int, l0 as int, r0 as int));
                    assert(sweep(adj0, ns_s, i as int, l0 as int, r0 as int) == sweep(adj0, nodes@, i as int, left as int, right as int));
                }
            }
            let ghost ns2 = nodes@;
            assert((ns2, right as int) == sweep(adj0, ns1, i as int, i as int, r0));
            if i == n - 1 || matrix[i][i + 1] {
                let ghost parts_before = partitions@;
                let ghost part = partition@;
                partitions.push(partition);
                proof {
                    assert(comps_view(partitions@) =~= comps_view(parts_before).push(part));
                    lemma_flat_push(comps_view(parts_before), part);
                    assert(partitions@[parts_before.len() as int]@ == part);
                    assert forall|p: int, q: int| 0 <= p < partitions@.len() && 0 <= q < partitions@[p]@.len()
                        implies dom.contains(#[trigger] partitions@[p]@[q]) by {
                        if p < parts_before.len() {
                            assert(partitions@[p] == parts_before[p]);
                        }
                    }
                }
                partition = Vec::new();
                proof {
                    assert(flat(comps_view(partitions@)) + partition@ =~= nodes@.take(i + 1));
                }
                right = n - 1;
                colors.push(color);
                color = colors_it.next_color();
            }
            i = i + 1;
        }
        if partition.len() > 0 {
            let ghost parts_before = partitions@;
            let ghost part = partition@;
            partitions.push(partition);
            proof {
                assert(comps_view(partitions@) =~= comps_view(parts_before).push(part));
                lemma_flat_push(comps_view(parts_before), part);
                assert(partitions@[parts_before.len() as int]@ == part);
                assert forall|p: int, q: int| 0 <= p < partitions@.len() && 0 <= q < partitions@[p]@.len()
                    implies dom.contains(#[trigger] partitions@[p]@[q]) by {
                    if p < parts_before.len() {
                        assert(partitions@[p] == parts_before[p]);
                    }
                }
            }
            colors.push(color);
            color = colors_it.next_color();
        } else {
            proof {
                assert(flat(comps_view(partitions@)) + partition@ =~= flat(comps_view(partitions@)));
            }
        }
        proof {
            assert(nodes@.take(n as int) =~= nodes@);
            assert(flat(comps_view(partitions@)) == nodes@);
            assert(n == adj_list.spec_len());
            assert forall|x: char| #[trigger] dom.contains(x) implies flat(comps_view(partitions@)).contains(x)
                || exists|m: int| 0 <= m < leafs@.len() && (#[trigger] leafs@[m]).0 == x by {
                assert(g.adj().contains_key(x));
                if !core.contains(x) {
                    assert(takes_first(leafs@, x));
                }
            }
        }
        let ghost core_parts = comps_view(partitions@);
        proof {
            assert(core_parts == target);
        }
        let mut k: usize = leafs.len();
        while k > 0
            invariant
                put_back_all(u, comps_view(partitions@), leafs@, k as int) == put_back_all(u, core_parts, leafs@, leafs@.len() as int),
                flat(comps_view(partitions@)).no_duplicates(),
                forall|x: char| #[trigger] dom.contains(x) ==> flat(comps_view(partitions@)).contains(x)
                    || exists|m: int| 0 <= m < k && (#[trigger] leafs@[m]).0 == x,
                cg.wf(),
                !cg.is_paused(),
                cg.adj() == u,
                u == undirected(g.adj()),
                u.dom() == dom,
                crate::graph::adjacency_wf(u),
                k <= leafs@.len(),
                colors_it.wf(),
                colors@.len() == partitions@.len(),
                forall|p: int| 0 <= p < partitions@.len() ==> (#[trigger] partitions@[p])@.len() > 0,
                forall|p: int| 0 <= p < partitions@.len() ==> independent(u, (#[trigger] partitions@[p])@),
                forall|p: int, q: int| 0 <= p < partitions@.len() && 0 <= q < partitions@[p]@.len() ==> dom.contains(#[trigger] partitions@[p]@[q]),
                forall|j: int| 0 <= j < leafs@.len() ==> dom.contains((#[trigger] leafs@[j]).0) && dom.contains(leafs@[j].1),
            decreases k,
        {
            k = k - 1;
            let (leaf, _) = leafs[k];
            assert(dom.contains(leafs@[k as int].0));
            let ghost before = partitions@;
            let ghost f = flat(comps_view(before));
            match first_holding(&partitions, leaf) {
                Some(h) => {
                    proof {
                        assert(comps_view(before)[h as int] == before[h as int]@);
                        lemma_flat_contains(comps_view(before), h as int, leaf);
                        assert(held(comps_view(before), leaf));
                    }
                },
                None => {
                    proof {
                        if f.contains(leaf) {
                            let h = lemma_flat_member(comps_view(before), leaf);
                            assert(comps_view(before)[h] == before[h]@);
                        }
                        assert(!has_link(u, leaf, leaf));
                        assert(!held(comps_view(before), leaf)) by {
                            if held(comps_view(before), leaf) {
                                let p = choose|p: int| 0 <= p < comps_view(before).len() && (#[trigger] comps_view(before)[p]).contains(leaf);
                                assert(comps_view(before)[p] == before[p]@);
                            }
                        }
                    }
                    match first_open(&cg, &partitions, leaf) {
                        Some(j) => {
                            proof {
                                assert forall|i: int| 0 <= i < j implies touches_any(u, #[trigger] comps_view(before)[i], leaf) by {
                                    assert(comps_view(before)[i] == before[i]@);
                                    assert(touches_any(u, before[i]@, leaf));
                                }
                                assert(comps_view(before)[j as int] == before[j as int]@);
                                lemma_first_open_at(u, comps_view(before), leaf, 0, j as int);
                                lemma_flat_update_push(comps_view(before), j as int, leaf);
                                lemma_independent_push(u, before[j as int]@, leaf);
                            }
                            partitions[j].push(leaf);
                            proof {
                                assert(comps_view(partitions@) =~= comps_view(before).update(j as int, comps_view(before)[j as int].push(leaf)));
                                assert forall|p: int, q: int| 0 <= p < partitions@.len() && 0 <= q < partitions@[p]@.len()
                                    implies dom.contains(#[trigger] partitions@[p]@[q]) by {
                                    if p != j || q < before[p]@.len() {
                                        assert(partitions@[p]@[q] == before[p]@[q]);
                                    }
                                }
                                assert forall|p: int| 0 <= p < partitions@.len() implies (#[trigger] partitions@[p])@.len() > 0 by {
                                    assert(partitions@[p]@.len() >= before[p]@.len());
                                }
                                assert forall|p: int| 0 <= p < partitions@.len() implies independent(u, (#[trigger] partitions@[p])@) by {
                                    if p != j {
                                        assert(partitions@[p] == before[p]);
                                    } else {
                                        assert(partitions@[p]@ == before[p]@.push(leaf));
                                    }
                                }
                                cg.lemma_running();
                            }
                            let c = colors[j];
                            cg.pause();
                            cg.color_node(leaf, c);
                            cg.fill_node(leaf, Color::disabled());
                            cg.resume();
                        },
                        None => {
                            proof {
                                assert forall|i: int| 0 <= i < before.len() implies touches_any(u, #[trigger] comps_view(before)[i], leaf) by {
                                    assert(comps_view(before)[i] == before[i]@);
                                    assert(touches_any(u, before[i]@, leaf));
                                }
                                lemma_first_open_at(u, comps_view(before), leaf, 0, before.len() as int);
                            }
                            let mut alone: Vec<char> = Vec::new();
                            alone.push(leaf);
                            partitions.push(alone);
                            proof {
                                assert(comps_view(partitions@) =~= comps_view(before).push(seq![leaf]));
                                lemma_flat_push(comps_view(before), seq![leaf]);
                                let f2 = flat(comps_view(partitions@));
                                assert(f2 == f + seq![leaf]);
                                assert(f2[f.len() as int] == leaf);
                                assert forall|a: int, b: int| 0 <= a < b < f2.len() implies f2[a] != f2[b] by {
                                    if b == f.len() {
                                        assert(f2[a] == f[a]);
                                        assert(f.contains(f[a]));
                                    } else {
                                        assert(f2[a] == f[a]);
                                        assert(f2[b] == f[b]);
                                    }
                                }
                                assert forall|x: char| #[trigger] f.contains(x) implies f2.contains(x) by {
                                    let q = f.index_of(x);
                                    assert(f2[q] == x);
                                }
                                assert forall|p: int, q: int| 0 <= p < partitions@.len() && 0 <= q < partitions@[p]@.len()
                                    implies dom.contains(#[trigger] partitions@[p]@[q]) by {
                                    if p < before.len() {
                                        assert(partitions@[p] == before[p]);
                                    }
                                }
                                assert forall|p: int| 0 <= p < partitions@.len() implies independent(u, (#[trigger] partitions@[p])@) by {
                                    if p < before.len() {
                                        assert(partitions@[p] == before[p]);
                                    }
                                }
                                assert forall|p: int| 0 <= p < partitions@.len() implies (#[trigger] partitions@[p])@.len() > 0 by {
                                    if p < before.len() {
                                        assert(partitions@[p] == before[p]);
                                    }
                                }
                                cg.lemma_running();
                            }
                            cg.pause();
                            cg.color_node(leaf, color);
                            cg.fill_node(leaf, Color::disabled());
                            cg.resume();
                            colors.push(color);
                            color = colors_it.next_color();
                        },
                    }
                },
            }
            proof {
                assert forall|x: char| #[trigger] dom.contains(x) implies flat(comps_view(partitions@)).contains(x)
                    || exists|m: int| 0 <= m < k && (#[trigger] leafs@[m]).0 == x by {
                    if !flat(comps_view(partitions@)).contains(x) && x != leaf {
                        if f.contains(x) {
                        }
                        let m = choose|m: int| 0 <= m < k + 1 && (#[trigger] leafs@[m]).0 == x;
                        assert(m != k);
                    }
                }
            }
        }
        proof {
            assert(comps_view(partitions@) == put_back_all(u, core_parts, leafs@, leafs@.len() as int));
            assert(comps_view(partitions@) == quick_parts(g.adj()));
            assert forall|x: char| #[trigger] g.adj().contains_key(x) implies exists|p: int, q: int|
                0 <= p < partitions@.len() && 0 <= q < partitions@[p]@.len() && partitions@[p]@[q] == x by {
                assert(dom.contains(x));
                let h = lemma_flat_member(comps_view(partitions@), x);
                assert(comps_view(partitions@)[h] == partitions@[h]@);
                let q = partitions@[h]@.index_of(x);
                assert(partitions@[h]@[q] == x);
            }
        }
        let radius: u32 = g.node_radius() as u32;
        let total: u128 = n as u128 + leafs.len() as u128 + partitions.len() as u128;
        let count: u32 = #[verifier::truncate] (total as u32);
        let perimeter: u32 = ((3 * radius) / 2).wrapping_mul(count).wrapping_mul(2);
        let mut idx: u32 = 0;
        cg.sleep(2000);
        proof {
            cg.lemma_running();
        }
        cg.pause();
        let mut p: usize = 0;
        while p < partitions.len()
            invariant
                cg.wf(),
                cg.is_paused(),
                !cg.layout_pending(),
                cg.adj() == u,
                u == undirected(g.adj()),
                u.dom() == dom,
                forall|p: int, q: int| 0 <= p < partitions@.len() && 0 <= q < partitions@[p]@.len() ==> dom.contains(#[trigger] partitions@[p]@[q]),
            decreases partitions@.len() - p,
        {
            let mut q: usize = 0;
            while q < partitions[p].len()
                invariant
                    cg.wf(),
                    cg.is_paused(),
                    !cg.layout_pending(),
                    cg.adj() == u,
                    u.dom() == dom,
                    p < partitions@.len(),
                    forall|p: int, q: int| 0 <= p < partitions@.len() && 0 <= q < partitions@[p]@.len() ==> dom.contains(#[trigger] partitions@[p]@[q]),
                decreases partitions@[p as int]@.len() - q,
            {
                let node = partitions[p][q];
                assert(dom.contains(partitions@[p as int]@[q as int]));
                let point = cg.circle_point(perimeter, count, idx);
                idx = idx.wrapping_add(1);
                cg.move_node(node, (point.x, point.y));
                q = q + 1;
            }
            idx = idx.wrapping_add(1);
            p = p + 1;
        }
        cg.resume();
        (cg, partitions)
    }
}

} // verus!
