//! Comparison of graphs: equality, up to a renaming of the nodes.
use vstd::prelude::*;
use crate::graph::renderer::LayoutEngine;
use crate::graph::{has_link, rows_view, rows_wf, Adjacency, Graph};
use crate::keymap::KeyMap;

verus! {

/// The renaming given by an optional map of names: a node keeps its name without one.
pub open spec fn renamed(bijection: Option<Map<char, char>>, x: char) -> char {
    match bijection {
        Some(f) => f[x],
        None => x,
    }
}

/// The view of an optional map of names.
pub open spec fn names_view(bijection: Option<&KeyMap<char, char>>) -> Option<Map<char, char>> {
    match bijection {
        Some(f) => Some(f@),
        None => None,
    }
}

/// Whether the renaming covers the nodes of `a2` and the ends of its links.
pub open spec fn renames_all(a2: Adjacency, bijection: Option<Map<char, char>>) -> bool {
    match bijection {
        Some(f) => {
            &&& forall|x: char| #[trigger] a2.contains_key(x) ==> f.contains_key(x)
            &&& forall|x: char, y: char| #[trigger] has_link(a2, x, y) ==> f.contains_key(y)
        },
        None => true,
    }
}

/// Whether `a1` is `a2` once each node of `a2` is renamed: the nodes of `a2` renamed are the
/// nodes of `a1`, and its links renamed are the links of `a1`, with the same values when
/// `values`.
pub open spec fn same_renamed(a1: Adjacency, a2: Adjacency, bijection: Option<Map<char, char>>, values: bool) -> bool {
    &&& forall|x: char| #[trigger] a2.contains_key(x) ==> a1.contains_key(renamed(bijection, x))
    &&& forall|k: char| #[trigger] a1.contains_key(k) ==> exists|x: char| #[trigger] a2.contains_key(x) && renamed(bijection, x) == k
    &&& forall|x: char, y: char| #[trigger] has_link(a2, x, y) ==> has_link(a1, renamed(bijection, x), renamed(bijection, y))
        && (values ==> a1[renamed(bijection, x)][renamed(bijection, y)] == a2[x][y])
    &&& forall|p: char, q: char| #[trigger] has_link(a1, p, q) ==> exists|x: char, y: char|
        #[trigger] has_link(a2, x, y) && renamed(bijection, x) == p && renamed(bijection, y) == q
}

/// The new name of `x`.
fn rename(bijection: Option<&KeyMap<char, char>>, x: char) -> (y: char)
    requires
        bijection matches Some(f) ==> f.wf() && f@.contains_key(x),
    ensures
        y == renamed(names_view(bijection), x),
{
    match bijection {
        Some(f) => *f.get(&x).unwrap(),
        None => x,
    }
}

/// Whether a node of `a2` is renamed `k`.
fn has_preimage(a2: &KeyMap<char, KeyMap<char, i8>>, bijection: Option<&KeyMap<char, char>>, k: char) -> (b: bool)
    requires
        rows_wf(*a2),
        bijection matches Some(f) ==> f.wf(),
        renames_all(rows_view(*a2), names_view(bijection)),
    ensures
        b == exists|x: char| #[trigger] rows_view(*a2).contains_key(x) && renamed(names_view(bijection), x) == k,
{
    proof {
        a2.lemma_keys();
    }
    let mut i: usize = 0;
    while i < a2.len()
        invariant
            rows_wf(*a2),
            bijection matches Some(f) ==> f.wf(),
            renames_all(rows_view(*a2), names_view(bijection)),
            i <= a2.spec_len(),
            a2.keys().len() == a2.spec_len(),
            forall|x: char| #[trigger] a2@.contains_key(x) <==> a2.keys().contains(x),
            forall|q: int| 0 <= q < i ==> renamed(names_view(bijection), #[trigger] a2.keys()[q]) != k,
        decreases a2.spec_len() - i,
    {
        let x = a2.key_at(i);
        assert(rows_view(*a2).contains_key(x));
        if rename(bijection, x) == k {
            return true;
        }
        i = i + 1;
    }
    proof {
        assert forall|x: char| #[trigger] rows_view(*a2).contains_key(x) implies renamed(names_view(bijection), x) != k by {
            let q = a2.keys().index_of(x);
            assert(a2.keys()[q] == x);
        }
    }
    false
}

/// Whether a link of `a2` is renamed the link from `p` to `q`.
fn has_link_preimage(a2: &KeyMap<char, KeyMap<char, i8>>, bijection: Option<&KeyMap<char, char>>, p: char, q: char) -> (b: bool)
    requires
        rows_wf(*a2),
        bijection matches Some(f) ==> f.wf(),
        renames_all(rows_view(*a2), names_view(bijection)),
    ensures
        b == exists|x: char, y: char| #[trigger] has_link(rows_view(*a2), x, y)
            && renamed(names_view(bijection), x) == p && renamed(names_view(bijection), y) == q,
{
    let ghost bv = names_view(bijection);
    let ghost a = rows_view(*a2);
    proof {
        a2.lemma_keys();
    }
    let mut i: usize = 0;
    while i < a2.len()
        invariant
            rows_wf(*a2),
            a == rows_view(*a2),
            bv == names_view(bijection),
            bijection matches Some(f) ==> f.wf(),
            renames_all(a, bv),
            i <= a2.spec_len(),
            a2.keys().len() == a2.spec_len(),
            forall|x: char| #[trigger] a2@.contains_key(x) <==> a2.keys().contains(x),
            forall|m: int, y: char| 0 <= m < i && #[trigger] has_link(a, a2.keys()[m], y)
                ==> !(renamed(bv, a2.keys()[m]) == p && renamed(bv, y) == q),
        decreases a2.spec_len() - i,
    {
        let x = a2.key_at(i);
        let row = a2.value_at(i);
        assert(row.wf());
        proof {
            row.lemma_keys();
        }
        let mut j: usize = 0;
        while j < row.len()
            invariant
                rows_wf(*a2),
                a == rows_view(*a2),
                bv == names_view(bijection),
                bijection matches Some(f) ==> f.wf(),
                renames_all(a, bv),
                row.wf(),
                a2@.contains_key(x),
                *row == a2@[x],
                row.keys().len() == row.spec_len(),
                forall|y: char| #[trigger] row@.contains_key(y) <==> row.keys().contains(y),
                j <= row.spec_len(),
                forall|m: int| 0 <= m < j ==> !(renamed(bv, x) == p && renamed(bv, #[trigger] row.keys()[m]) == q),
            decreases row.spec_len() - j,
        {
            let y = row.key_at(j);
            assert(has_link(a, x, y));
            let fx = rename(bijection, x);
            let fy = rename(bijection, y);
            if fx == p && fy == q {
                return true;
            }
            j = j + 1;
        }
        proof {
            assert(x == a2.keys()[i as int]);
            assert forall|m: int, y: char| 0 <= m < i + 1 && #[trigger] has_link(a, a2.keys()[m], y)
                implies !(renamed(bv, a2.keys()[m]) == p && renamed(bv, y) == q) by {
                if m == i {
                    assert(row@.contains_key(y));
                    let r = row.keys().index_of(y);
                    assert(row.keys()[r] == y);
                }
            }
        }
        i = i + 1;
    }
    proof {
        assert forall|x: char, y: char| #[trigger] has_link(a, x, y)
            implies !(renamed(bv, x) == p && renamed(bv, y) == q) by {
            let m = a2.keys().index_of(x);
            assert(a2.keys()[m] == x);
        }
    }
    false
}

pub struct Compare {}

impl Compare {
    /// Whether the adjacency lists are equal once each node of `adj_list_2` is renamed by
    /// `bijection_2` (when given): the same nodes and the same links, with the same values
    /// when `link_value_check`.
    pub fn equal_adj(
        adj_list_1: &KeyMap<char, KeyMap<char, i8>>,
        adj_list_2: &KeyMap<char, KeyMap<char, i8>>,
        link_value_check: bool,
        bijection_2: Option<&KeyMap<char, char>>,
    ) -> (b: bool)
        requires
            rows_wf(*adj_list_1),
            rows_wf(*adj_list_2),
            bijection_2 matches Some(f) ==> f.wf(),
            renames_all(rows_view(*adj_list_2), names_view(bijection_2)),
        ensures
            b == same_renamed(rows_view(*adj_list_1), rows_view(*adj_list_2), names_view(bijection_2), link_value_check),
    {
        let ghost a1 = rows_view(*adj_list_1);
        let ghost a2 = rows_view(*adj_list_2);
        let ghost bv = names_view(bijection_2);
        proof {
            adj_list_2.lemma_keys();
            adj_list_1.lemma_keys();
        }
        let mut i: usize = 0;
        while i < adj_list_2.len()
            invariant
                rows_wf(*adj_list_1),
                rows_wf(*adj_list_2),
                a1 == rows_view(*adj_list_1),
                a2 == rows_view(*adj_list_2),
                bv == names_view(bijection_2),
                bijection_2 matches Some(f) ==> f.wf(),
                renames_all(a2, bv),
                i <= adj_list_2.spec_len(),
                adj_list_2.keys().len() == adj_list_2.spec_len(),
                forall|x: char| #[trigger] adj_list_2@.contains_key(x) <==> adj_list_2.keys().contains(x),
                forall|m: int| 0 <= m < i ==> a1.contains_key(renamed(bv, #[trigger] adj_list_2.keys()[m])),
                forall|m: int, y: char| 0 <= m < i && #[trigger] has_link(a2, adj_list_2.keys()[m], y)
                    ==> has_link(a1, renamed(bv, adj_list_2.keys()[m]), renamed(bv, y))
                    && (link_value_check ==> a1[renamed(bv, adj_list_2.keys()[m])][renamed(bv, y)] == a2[adj_list_2.keys()[m]][y]),
            decreases adj_list_2.spec_len() - i,
        {
            let x = adj_list_2.key_at(i);
            assert(a2.contains_key(x));
            let fx = rename(bijection_2, x);
            let row1 = match adj_list_1.get(&fx) {
                None => {
                    return false;
                },
                Some(r) => r,
            };
            assert(row1.wf());
            let row2 = adj_list_2.value_at(i);
            assert(row2.wf());
            proof {
                row2.lemma_keys();
            }
            let mut j: usize = 0;
            while j < row2.len()
                invariant
                    rows_wf(*adj_list_1),
                    rows_wf(*adj_list_2),
                    a1 == rows_view(*adj_list_1),
                    a2 == rows_view(*adj_list_2),
                    bv == names_view(bijection_2),
                    bijection_2 matches Some(f) ==> f.wf(),
                    renames_all(a2, bv),
                    row2.wf(),
                    row1.wf(),
                    adj_list_2@.contains_key(x),
                    *row2 == adj_list_2@[x],
                    adj_list_1@.contains_key(fx),
                    *row1 == adj_list_1@[fx],
                    fx == renamed(bv, x),
                    row2.keys().len() == row2.spec_len(),
                    forall|y: char| #[trigger] row2@.contains_key(y) <==> row2.keys().contains(y),
                    j <= row2.spec_len(),
                    forall|m: int| 0 <= m < j ==> has_link(a1, fx, renamed(bv, #[trigger] row2.keys()[m]))
                        && (link_value_check ==> a1[fx][renamed(bv, row2.keys()[m])] == a2[x][row2.keys()[m]]),
                decreases row2.spec_len() - j,
            {
                let y = row2.key_at(j);
                let v2 = *row2.value_at(j);
                assert(has_link(a2, x, y));
                let fy = rename(bijection_2, y);
                match row1.get(&fy) {
                    None => {
                        return false;
                    },
                    Some(v1) => {
                        if link_value_check && *v1 != v2 {
                            return false;
                        }
                    },
                }
                j = j + 1;
            }
            proof {
                assert(x == adj_list_2.keys()[i as int]);
                assert forall|m: int, y: char| 0 <= m < i + 1 && #[trigger] has_link(a2, adj_list_2.keys()[m], y)
                    implies has_link(a1, renamed(bv, adj_list_2.keys()[m]), renamed(bv, y))
                    && (link_value_check ==> a1[renamed(bv, adj_list_2.keys()[m])][renamed(bv, y)] == a2[adj_list_2.keys()[m]][y]) by {
                    if m == i {
                        assert(row2@.contains_key(y));
                        let r = row2.keys().index_of(y);
                        assert(row2.keys()[r] == y);
                    }
                }
            }
            i = i + 1;
        }
        proof {
            assert forall|x: char| #[trigger] a2.contains_key(x) implies a1.contains_key(renamed(bv, x)) by {
                let m = adj_list_2.keys().index_of(x);
                assert(adj_list_2.keys()[m] == x);
            }
            assert forall|x: char, y: char| #[trigger] has_link(a2, x, y) implies has_link(a1, renamed(bv, x), renamed(bv, y))
                && (link_value_check ==> a1[renamed(bv, x)][renamed(bv, y)] == a2[x][y]) by {
                let m = adj_list_2.keys().index_of(x);
                assert(adj_list_2.keys()[m] == x);
            }
        }
        let mut k: usize = 0;
        while k < adj_list_1.len()
            invariant
                rows_wf(*adj_list_1),
                rows_wf(*adj_list_2),
                a1 == rows_view(*adj_list_1),
                a2 == rows_view(*adj_list_2),
                bv == names_view(bijection_2),
                bijection_2 matches Some(f) ==> f.wf(),
                renames_all(a2, bv),
                k <= adj_list_1.spec_len(),
                adj_list_1.keys().len() == adj_list_1.spec_len(),
                forall|x: char| #[trigger] adj_list_1@.contains_key(x) <==> adj_list_1.keys().contains(x),
                forall|m: int| 0 <= m < k ==> exists|x: char| #[trigger] a2.contains_key(x)
                    && renamed(bv, x) == #[trigger] adj_list_1.keys()[m],
                forall|m: int, q: char| 0 <= m < k && #[trigger] has_link(a1, adj_list_1.keys()[m], q)
                    ==> exists|x: char, y: char| #[trigger] has_link(a2, x, y) && renamed(bv, x) == adj_list_1.keys()[m] && renamed(bv, y) == q,
            decreases adj_list_1.spec_len() - k,
        {
            let p = adj_list_1.key_at(k);
            if !has_preimage(adj_list_2, bijection_2, p) {
                assert(a1.contains_key(p));
                return false;
            }
            let row = adj_list_1.value_at(k);
            assert(row.wf());
            proof {
                row.lemma_keys();
            }
            let mut j: usize = 0;
            while j < row.len()
                invariant
                    rows_wf(*adj_list_1),
                    rows_wf(*adj_list_2),
                    a1 == rows_view(*adj_list_1),
                    a2 == rows_view(*adj_list_2),
                    bv == names_view(bijection_2),
                    bijection_2 matches Some(f) ==> f.wf(),
                    renames_all(a2, bv),
                    row.wf(),
                    adj_list_1@.contains_key(p),
                    *row == adj_list_1@[p],
                    row.keys().len() == row.spec_len(),
                    forall|y: char| #[trigger] row@.contains_key(y) <==> row.keys().contains(y),
                    j <= row.spec_len(),
                    forall|m: int| 0 <= m < j ==> exists|x: char, y: char| #[trigger] has_link(a2, x, y)
                        && renamed(bv, x) == p && renamed(bv, y) == #[trigger] row.keys()[m],
                decreases row.spec_len() - j,
            {
                let q = row.key_at(j);
                if !has_link_preimage(adj_list_2, bijection_2, p, q) {
                    assert(has_link(a1, p, q));
                    return false;
                }
                j = j + 1;
            }
            proof {
                assert(p == adj_list_1.keys()[k as int]);
                assert forall|m: int, q: char| 0 <= m < k + 1 && #[trigger] has_link(a1, adj_list_1.keys()[m], q)
                    implies exists|x: char, y: char| #[trigger] has_link(a2, x, y) && renamed(bv, x) == adj_list_1.keys()[m] && renamed(bv, y) == q by {
                    if m == k {
                        assert(row@.contains_key(q));
                        let r = row.keys().index_of(q);
                        assert(row.keys()[r] == q);
                    }
                }
            }
            k = k + 1;
        }
        proof {
            assert forall|p: char| #[trigger] a1.contains_key(p) implies exists|x: char| #[trigger] a2.contains_key(x) && renamed(bv, x) == p by {
                let m = adj_list_1.keys().index_of(p);
                assert(adj_list_1.keys()[m] == p);
            }
            assert forall|p: char, q: char| #[trigger] has_link(a1, p, q) implies exists|x: char, y: char|
                #[trigger] has_link(a2, x, y) && renamed(bv, x) == p && renamed(bv, y) == q by {
                let m = adj_list_1.keys().index_of(p);
                assert(adj_list_1.keys()[m] == p);
            }
        }
        true
    }

    /// Whether the two graphs are equal: the same nodes and the same links, with the same
    /// values when `link_value_check`.
    pub fn equal<E: LayoutEngine>(graph_1: &Graph<E>, graph_2: &Graph<E>, link_value_check: bool) -> (b: bool)
        requires
            graph_1.wf(),
            graph_2.wf(),
        ensures
            b == same_renamed(graph_1.adj(), graph_2.adj(), None, link_value_check),
    {
        let a1 = graph_1.adjacency_list();
        let a2 = graph_2.adjacency_list();
        Self::equal_adj(&a1, &a2, link_value_check, None)
    }
}

} // verus!
