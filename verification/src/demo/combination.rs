//! Combinations of sequences of elements.
use vstd::prelude::*;

verus! {

/// The arrangements of `elements` (each taken at most once, in any order) that extend
/// `prefix` to a length between `min` and `max`, in depth-first order: `prefix` itself first
/// when long enough, then those that go on with each element in turn.
pub open spec fn arrangements<T>(min: nat, max: nat, elements: Seq<T>, prefix: Seq<T>) -> Seq<Seq<T>>
    decreases elements.len(), elements.len() + 1,
{
    let here = if prefix.len() >= min {
        seq![prefix]
    } else {
        Seq::empty()
    };
    if prefix.len() >= min && prefix.len() >= max {
        here
    } else {
        here + arrangements_upto(min, max, elements, prefix, elements.len() as int)
    }
}

/// The arrangements that go on from `prefix` with each of the first `i` elements in turn.
pub open spec fn arrangements_upto<T>(min: nat, max: nat, elements: Seq<T>, prefix: Seq<T>, i: int) -> Seq<Seq<T>>
    decreases elements.len(), i,
{
    if i <= 0 || i > elements.len() {
        Seq::empty()
    } else {
        arrangements_upto(min, max, elements, prefix, i - 1)
            + arrangements(min, max, elements.remove(i - 1), prefix.push(elements[i - 1]))
    }
}

/// Each sequence of `result` followed by `tail`, for the first `j` tails of `tails` in turn.
pub open spec fn extended_upto<T>(result: Seq<Seq<T>>, tails: Seq<Seq<T>>, j: int) -> Seq<Seq<T>>
    decreases j,
{
    if j <= 0 || j > tails.len() {
        Seq::empty()
    } else {
        extended_upto(result, tails, j - 1) + result.map_values(|c: Seq<T>| c + tails[j - 1])
    }
}

/// The concatenations of one sequence of each of the first `k` lists, the first list
/// varying fastest.
pub open spec fn concatenations<T>(lists: Seq<Seq<Seq<T>>>, k: int) -> Seq<Seq<T>>
    decreases k,
{
    if k <= 0 || k > lists.len() {
        seq![Seq::empty()]
    } else {
        let before = concatenations(lists, k - 1);
        extended_upto(before, lists[k - 1], lists[k - 1].len() as int)
    }
}

/// Whether `s` is an arrangement of `elements` after `prefix` of the right length: `prefix`
/// followed by elements of `elements`, of a length of at least `min`, and of at most `max`
/// when `min <= max` and `prefix` is not longer than `max`; with no element twice when
/// neither `prefix` nor `elements` holds one twice and they share none.
pub open spec fn arranged<T>(min: nat, max: nat, elements: Seq<T>, prefix: Seq<T>, s: Seq<T>) -> bool {
    &&& s.len() >= min
    &&& prefix.len() <= s.len() && s.take(prefix.len() as int) == prefix
    &&& min <= max && prefix.len() <= max ==> s.len() <= max
    &&& forall|k: int| prefix.len() <= k < s.len() ==> elements.contains(#[trigger] s[k])
    &&& prefix.no_duplicates() && elements.no_duplicates() && (forall|x: T| prefix.contains(x) ==> !elements.contains(x))
        ==> s.no_duplicates()
}

/// Each arrangement of `elements` that extends `prefix` is `prefix` followed by distinct
/// elements of `elements` (see `arranged`): a length between `min` and `max`, and no element
/// twice when there is none in `prefix` and `elements` together.
pub proof fn law_arrangement_shape<T>(min: nat, max: nat, elements: Seq<T>, prefix: Seq<T>, j: int)
    requires
        0 <= j < arrangements(min, max, elements, prefix).len(),
    ensures
        arranged(min, max, elements, prefix, arrangements(min, max, elements, prefix)[j]),
    decreases elements.len(), elements.len() + 1,
{
    let here: Seq<Seq<T>> = if prefix.len() >= min { seq![prefix] } else { Seq::empty() };
    if j < here.len() {
        let s = arrangements(min, max, elements, prefix)[j];
        assert(s == prefix);
        assert(prefix.take(prefix.len() as int) =~= prefix);
    } else {
        let all = arrangements(min, max, elements, prefix);
        let up = arrangements_upto(min, max, elements, prefix, elements.len() as int);
        assert(all == here + up);
        assert(all[j] == up[j - here.len()]);
        lemma_upto_shape(min, max, elements, prefix, elements.len() as int, j - here.len());
    }
}

/// The arrangements that go on with one of the first `i` elements are arranged too, when
/// `prefix` is not already long enough to stop.
proof fn lemma_upto_shape<T>(min: nat, max: nat, elements: Seq<T>, prefix: Seq<T>, i: int, j: int)
    requires
        0 <= j < arrangements_upto(min, max, elements, prefix, i).len(),
        !(prefix.len() >= min && prefix.len() >= max),
    ensures
        arranged(min, max, elements, prefix, arrangements_upto(min, max, elements, prefix, i)[j]),
    decreases elements.len(), i,
{
    if 0 < i <= elements.len() {
        let before = arrangements_upto(min, max, elements, prefix, i - 1);
        let e = elements[i - 1];
        let rest = elements.remove(i - 1);
        let p2 = prefix.push(e);
        let more = arrangements(min, max, rest, p2);
        assert(arrangements_upto(min, max, elements, prefix, i) == before + more);
        if j < before.len() {
            assert((before + more)[j] == before[j]);
            lemma_upto_shape(min, max, elements, prefix, i - 1, j);
        } else {
            let s = more[j - before.len()];
            assert((before + more)[j] == s);
            law_arrangement_shape(min, max, rest, p2, j - before.len());
            assert(s.take(prefix.len() as int) =~= prefix) by {
                assert(s.take(p2.len() as int) == p2);
                assert forall|k: int| 0 <= k < prefix.len() implies s[k] == prefix[k] by {
                    assert(s.take(p2.len() as int)[k] == p2[k]);
                }
            }
            assert forall|k: int| prefix.len() <= k < s.len() implies elements.contains(#[trigger] s[k]) by {
                if k == prefix.len() {
                    assert(s.take(p2.len() as int)[k] == p2[k]);
                    assert(elements[i - 1] == s[k]);
                } else {
                    assert(rest.contains(s[k]));
                    let q = rest.index_of(s[k]);
                    if q < i - 1 {
                        assert(elements[q] == s[k]);
                    } else {
                        assert(elements[q + 1] == s[k]);
                    }
                }
            }
            if prefix.no_duplicates() && elements.no_duplicates() && (forall|x: T| prefix.contains(x) ==> !elements.contains(x)) {
                assert(!prefix.contains(e)) by {
                    assert(elements.contains(e));
                }
                assert(p2.no_duplicates()) by {
                    assert forall|a: int, b: int| 0 <= a < b < p2.len() implies p2[a] != p2[b] by {
                        if b == prefix.len() {
                            assert(prefix.contains(p2[a]));
                        }
                    }
                }
                assert(rest.no_duplicates()) by {
                    assert forall|a: int, b: int| 0 <= a < b < rest.len() implies rest[a] != rest[b] by {
                        let ea = if a < i - 1 { a } else { a + 1 };
                        let eb = if b < i - 1 { b } else { b + 1 };
                        assert(rest[a] == elements[ea] && rest[b] == elements[eb]);
                    }
                }
                assert forall|x: T| p2.contains(x) implies !rest.contains(x) by {
                    if rest.contains(x) {
                        let q = rest.index_of(x);
                        let eq = if q < i - 1 { q } else { q + 1 };
                        assert(rest[q] == elements[eq]);
                        assert(elements.contains(x));
                        let pq = p2.index_of(x);
                        if pq < prefix.len() {
                            assert(prefix[pq] == x);
                            assert(prefix.contains(x));
                        } else {
                            assert(x == e);
                            assert(eq != i - 1);
                        }
                    }
                }
            }
        }
    }
}

/// The views of a list of vectors.
pub open spec fn views<T>(v: Seq<Vec<T>>) -> Seq<Seq<T>> {
    v.map_values(|x: Vec<T>| x@)
}

/// A copy of `v`.
fn copied<T: Copy>(v: &Vec<T>) -> (c: Vec<T>)
    ensures
        c@ == v@,
{
    let mut c: Vec<T> = Vec::new();
    let mut i: usize = 0;
    while i < v.len()
        invariant
            i <= v@.len(),
            c@ == v@.take(i as int),
        decreases v@.len() - i,
    {
        c.push(v[i]);
        i = i + 1;
        assert(c@ =~= v@.take(i as int));
    }
    assert(c@ =~= v@);
    c
}

pub struct Combination {}

impl Combination {
    /// For each (elements, min, max) of the list, the arrangements of the elements of a length
    /// between min and max; returns every concatenation of one arrangement of each, in order.
    pub fn combine<T: Copy>(elements_list: Vec<(Vec<T>, usize, usize)>) -> (r: Vec<Vec<T>>)
        ensures
            views(r@) == concatenations(
                elements_list@.map_values(|e: (Vec<T>, usize, usize)| arrangements(e.1 as nat, e.2 as nat, e.0@, Seq::empty())),
                elements_list@.len() as int,
            ),
    {
        let ghost lists = elements_list@.map_values(|e: (Vec<T>, usize, usize)| arrangements(e.1 as nat, e.2 as nat, e.0@, Seq::empty()));
        let mut combinations_list: Vec<Vec<Vec<T>>> = Vec::new();
        let mut i: usize = 0;
        while i < elements_list.len()
            invariant
                i <= elements_list@.len(),
                combinations_list@.len() == i,
                lists == elements_list@.map_values(|e: (Vec<T>, usize, usize)| arrangements(e.1 as nat, e.2 as nat, e.0@, Seq::empty())),
                forall|q: int| 0 <= q < i ==> views(#[trigger] combinations_list@[q]@) == lists[q],
            decreases elements_list@.len() - i,
        {
            let elements = copied(&elements_list[i].0);
            let min_length = elements_list[i].1;
            let max_length = elements_list[i].2;
            let mut combinations: Vec<Vec<T>> = Vec::new();
            Self::combine_elements(min_length, max_length, elements, Vec::new(), &mut combinations);
            assert(views(combinations@) =~= lists[i as int]);
            combinations_list.push(combinations);
            i = i + 1;
        }
        Self::concat_combinations(combinations_list, Ghost(lists))
    }

    /// Appends to `combinations` the arrangements of `elements` that extend `combination`.
    fn combine_elements<T: Copy>(
        min_length: usize,
        max_length: usize,
        elements: Vec<T>,
        combination: Vec<T>,
        combinations: &mut Vec<Vec<T>>,
    )
        ensures
            views(final(combinations)@) == views(old(combinations)@)
                + arrangements(min_length as nat, max_length as nat, elements@, combination@),
        decreases elements@.len(),
    {
        let ghost start = views(combinations@);
        let ghost all = arrangements(min_length as nat, max_length as nat, elements@, combination@);
        if combination.len() >= min_length {
            if combination.len() >= max_length {
                combinations.push(combination);
                assert(views(combinations@) =~= start + all);
                return;
            }
            combinations.push(copied(&combination));
        }
        let ghost here = if combination@.len() >= min_length {
            seq![combination@]
        } else {
            Seq::<Seq<T>>::empty()
        };
        assert(views(combinations@) =~= start + here);
        if elements.len() == 0 {
            assert(arrangements_upto(min_length as nat, max_length as nat, elements@, combination@, 0) =~= Seq::<Seq<T>>::empty());
            assert(all =~= here);
            return;
        }
        let mut i: usize = 0;
        while i < elements.len()
            invariant
                i <= elements@.len(),
                views(combinations@) == start + here + arrangements_upto(min_length as nat, max_length as nat, elements@, combination@, i as int),
            decreases elements@.len() - i,
        {
            let mut next = copied(&combination);
            next.push(elements[i]);
            let mut rest = copied(&elements);
            let _ = rest.remove(i);
            let ghost before = views(combinations@);
            Self::combine_elements(min_length, max_length, rest, next, combinations);
            i = i + 1;
            assert(views(combinations@) =~= start + here + arrangements_upto(min_length as nat, max_length as nat, elements@, combination@, i as int));
        }
        assert(all == here + arrangements_upto(min_length as nat, max_length as nat, elements@, combination@, elements@.len() as int));
        assert(views(combinations@) =~= start + all);
    }

    /// Every concatenation of one combination of each list, the first list varying fastest.
    fn concat_combinations<T: Copy>(combinations_list: Vec<Vec<Vec<T>>>, Ghost(lists): Ghost<Seq<Seq<Seq<T>>>>) -> (r: Vec<Vec<T>>)
        requires
            combinations_list@.len() == lists.len(),
            forall|q: int| 0 <= q < lists.len() ==> views(#[trigger] combinations_list@[q]@) == lists[q],
        ensures
            views(r@) == concatenations(lists, lists.len() as int),
    {
        let mut result: Vec<Vec<T>> = Vec::new();
        result.push(Vec::new());
        assert(views(result@) =~= concatenations(lists, 0));
        let mut k: usize = 0;
        while k < combinations_list.len()
            invariant
                k <= combinations_list@.len(),
                combinations_list@.len() == lists.len(),
                forall|q: int| 0 <= q < lists.len() ==> views(#[trigger] combinations_list@[q]@) == lists[q],
                views(result@) == concatenations(lists, k as int),
            decreases combinations_list@.len() - k,
        {
            let combinations = &combinations_list[k];
            let ghost tails = lists[k as int];
            assert(views(combinations@) == tails);
            let mut concat: Vec<Vec<T>> = Vec::new();
            let mut j: usize = 0;
            while j < combinations.len()
                invariant
                    j <= combinations@.len(),
                    views(combinations@) == tails,
                    views(concat@) == extended_upto(views(result@), tails, j as int),
                decreases combinations@.len() - j,
            {
                let combination = &combinations[j];
                let ghost before = views(concat@);
                assert(views(combinations@)[j as int] == combinations@[j as int]@);
                assert(combination@ == tails[j as int]);
                let mut c: usize = 0;
                while c < result.len()
                    invariant
                        c <= result@.len(),
                        j < combinations@.len(),
                        combination@ == tails[j as int],
                        views(combinations@) == tails,
                        views(concat@) == before + views(result@).take(c as int).map_values(|x: Seq<T>| x + tails[j as int]),
                    decreases result@.len() - c,
                {
                    let mut joined = copied(&result[c]);
                    let mut t: usize = 0;
                    while t < combination.len()
                        invariant
                            t <= combination@.len(),
                            c < result@.len(),
                            joined@ == result@[c as int]@ + combination@.take(t as int),
                        decreases combination@.len() - t,
                    {
                        joined.push(combination[t]);
                        t = t + 1;
                        assert(joined@ =~= result@[c as int]@ + combination@.take(t as int));
                    }
                    assert(combination@.take(t as int) =~= combination@);
                    assert(views(result@)[c as int] == result@[c as int]@);
                    let ghost concat0 = concat@;
                    concat.push(joined);
                    proof {
                        let f = |x: Seq<T>| x + tails[j as int];
                        assert(views(concat@) =~= views(concat0).push(joined@));
                        assert(views(result@).take(c + 1) =~= views(result@).take(c as int).push(views(result@)[c as int]));
                        assert(views(result@).take(c + 1).map_values(f) =~= views(result@).take(c as int).map_values(f).push(f(views(result@)[c as int])));
                    }
                    c = c + 1;
                    assert(views(concat@) =~= before + views(result@).take(c as int).map_values(|x: Seq<T>| x + tails[j as int]));
                }
                j = j + 1;
                assert(views(result@).take(c as int) =~= views(result@));
                assert(views(concat@) =~= extended_upto(views(result@), tails, j as int));
            }
            result = concat;
            k = k + 1;
            assert(views(result@) =~= concatenations(lists, k as int));
        }
        result
    }
}

} // verus!
