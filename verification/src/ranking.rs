//! A stable sort, and what it means to be sorted.

use vstd::prelude::*;

use crate::counting::{lemma_total_remove, total};

verus! {

/// Values that are ranked by what they hold.
pub trait Ranked: View + Sized {
    /// Whether `a` ranks ahead of `b`.
    spec fn ahead(a: Self::V, b: Self::V) -> bool;

    /// No two values rank ahead of each other, and what does not rank ahead of a value does not
    /// rank ahead of what that value does not rank behind.
    proof fn ahead_is_order(a: Self::V, b: Self::V, c: Self::V)
        ensures
            !(Self::ahead(a, b) && Self::ahead(b, a)),
            !Self::ahead(a, b) && !Self::ahead(b, c) ==> !Self::ahead(a, c),
    ;

    /// Whether this value ranks ahead of the other one.
    fn is_ahead(&self, other: &Self) -> (r: bool)
        ensures
            r == Self::ahead(self@, other@),
    ;
}

/// What a list of values holds.
pub open spec fn views<T: View>(s: Seq<T>) -> Seq<T::V> {
    s.map_values(|t: T| t@)
}

/// Whether `p` holds each of the numbers below `n` once.
pub open spec fn is_arrangement(p: Seq<int>, n: nat) -> bool {
    &&& p.len() == n
    &&& p.no_duplicates()
    &&& forall|i: int| 0 <= i < p.len() ==> 0 <= #[trigger] p[i] < n
}

/// Whether `output` holds the values of `input` by rank, where `output[i]` is `input[p[i]]`. Of two
/// values neither of which ranks ahead, the one that came first comes first.
pub open spec fn ranked_by<T: Ranked>(
    input: Seq<T::V>,
    output: Seq<T::V>,
    p: Seq<int>,
) -> bool {
    &&& is_arrangement(p, input.len())
    &&& output.len() == input.len()
    &&& forall|i: int| 0 <= i < p.len() ==> #[trigger] output[i] == input[p[i]]
    &&& forall|i: int, j: int|
        #![trigger output[i], output[j]]
        0 <= i < j < output.len() ==> T::ahead(output[i], output[j]) || (!T::ahead(
            output[j],
            output[i],
        ) && p[i] < p[j])
}

/// Whether `output` holds the values of `input` by rank, ties in the order of `input`.
pub open spec fn is_ranking<T: Ranked>(input: Seq<T::V>, output: Seq<T::V>) -> bool {
    exists|p: Seq<int>| ranked_by::<T>(input, output, p)
}

/// There is one ranking of a list.
pub proof fn law_ranking_is_unique<T: Ranked>(
    input: Seq<T::V>,
    a: Seq<T::V>,
    b: Seq<T::V>,
)
    requires
        is_ranking::<T>(input, a),
        is_ranking::<T>(input, b),
    ensures
        a == b,
{
    let p = choose|p: Seq<int>| ranked_by::<T>(input, a, p);
    let q = choose|q: Seq<int>| ranked_by::<T>(input, b, q);
    lemma_same_arrangement::<T>(input, a, p, b, q, input.len() as int);
    assert(a =~= b) by {
        assert forall|i: int| 0 <= i < a.len() implies a[i] == b[i] by {
            assert(p[i] == q[i]);
            assert(a[i] == input[p[i]]);
            assert(b[i] == input[q[i]]);
        }
    }
}

/// Whether the value at `x` precedes the value at `y` in a ranking of `input`.
spec fn precedes<T: Ranked>(input: Seq<T::V>, x: int, y: int) -> bool {
    T::ahead(input[x], input[y]) || (!T::ahead(input[y], input[x]) && x < y)
}

proof fn lemma_same_arrangement<T: Ranked>(
    input: Seq<T::V>,
    a: Seq<T::V>,
    p: Seq<int>,
    b: Seq<T::V>,
    q: Seq<int>,
    n: int,
)
    requires
        ranked_by::<T>(input, a, p),
        ranked_by::<T>(input, b, q),
        0 <= n <= input.len(),
    ensures
        forall|i: int| 0 <= i < n ==> #[trigger] p[i] == q[i],
    decreases n,
{
    if n > 0 {
        lemma_same_arrangement::<T>(input, a, p, b, q, n - 1);
        let k = n - 1;
        let x = p[k];
        let y = q[k];
        if x != y {
            // `x` stands behind `y` in `q`, and `y` behind `x` in `p`: both precede the other.
            lemma_arrangement_is_onto(q, input.len());
            lemma_arrangement_is_onto(p, input.len());
            assert(q.contains(x) && p.contains(y));
            let i = choose|i: int| 0 <= i < q.len() && #[trigger] q[i] == x;
            let j = choose|j: int| 0 <= j < p.len() && #[trigger] p[j] == y;
            if i < k {
                assert(p[i] == q[i]);
            }
            if j < k {
                assert(p[j] == q[j]);
            }
            assert(a[k] == input[x] && a[j] == input[y]);
            assert(b[k] == input[y] && b[i] == input[x]);
            assert(precedes::<T>(input, x, y));
            assert(precedes::<T>(input, y, x));
            T::ahead_is_order(input[x], input[y], input[x]);
        }
    }
}

/// An arrangement of the numbers below `n` holds each of them.
pub proof fn lemma_arrangement_is_onto(p: Seq<int>, n: nat)
    requires
        is_arrangement(p, n),
    ensures
        forall|x: int| 0 <= x < n ==> #[trigger] p.contains(x),
{
    let below = vstd::set_lib::set_int_range(0, n as int);
    vstd::set_lib::lemma_int_range(0, n as int);
    p.unique_seq_to_set();
    assert(p.to_set().subset_of(below));
    assert forall|x: int| 0 <= x < n implies #[trigger] p.contains(x) by {
        if !p.to_set().contains(x) {
            assert(p.to_set().subset_of(below.remove(x)));
            vstd::set_lib::lemma_len_subset(p.to_set(), below.remove(x));
        }
    }
}

/// The numbers of a list have the same sum in any order.
pub proof fn lemma_total_arranged(s: Seq<int>, p: Seq<int>)
    requires
        is_arrangement(p, s.len()),
    ensures
        total(p.map_values(|i: int| s[i])) == total(s),
    decreases s.len(),
{
    let f = |i: int| s[i];
    let arranged = p.map_values(f);
    if s.len() > 0 {
        lemma_arrangement_is_onto(p, s.len());
        let n = s.len() - 1;
        assert(p.contains(n));
        let k = choose|k: int| 0 <= k < p.len() && p[k] == n;
        let q = p.remove(k);
        let t = s.drop_last();
        assert forall|i: int| 0 <= i < q.len() implies 0 <= #[trigger] q[i] < t.len() by {
            let i0 = if i < k {
                i
            } else {
                i + 1
            };
            assert(q[i] == p[i0]);
            assert(p[i0] != p[k]);
        }
        assert forall|i: int, j: int|
            0 <= i < q.len() && 0 <= j < q.len() && i != j implies q[i] != q[j] by {
            let i0 = if i < k {
                i
            } else {
                i + 1
            };
            let j0 = if j < k {
                j
            } else {
                j + 1
            };
            assert(q[i] == p[i0] && q[j] == p[j0]);
        }
        lemma_total_arranged(t, q);
        assert(q.map_values(|i: int| t[i]) =~= arranged.remove(k));
        lemma_total_remove(arranged, k);
    } else {
        assert(arranged =~= s);
    }
}

/// The values by rank, ties in their order.
pub fn stable_sort<T: Ranked>(items: Vec<T>) -> (sorted: Vec<T>)
    ensures
        is_ranking::<T>(views(items@), views(sorted@)),
{
    let ghost input = views(items@);
    let mut items = items;
    let mut sorted: Vec<T> = Vec::new();
    let ghost mut p: Seq<int> = seq![];
    while items.len() > 0
        invariant
            items@.len() + sorted@.len() == input.len(),
            views(items@) == input.take(items@.len() as int),
            p.len() == sorted@.len(),
            p.no_duplicates(),
            forall|i: int| 0 <= i < p.len() ==> items@.len() <= #[trigger] p[i] < input.len(),
            forall|i: int| 0 <= i < p.len() ==> #[trigger] views(sorted@)[i] == input[p[i]],
            forall|i: int, j: int|
                #![trigger views(sorted@)[i], views(sorted@)[j]]
                0 <= i < j < sorted@.len() ==> T::ahead(views(sorted@)[i], views(sorted@)[j]) || (
                !T::ahead(views(sorted@)[j], views(sorted@)[i]) && p[i] < p[j]),
        decreases items@.len(),
    {
        let ghost old_items = items@;
        let ghost s = views(sorted@);
        let ghost q = p;
        let item = items.pop().unwrap();
        let ghost x = item@;
        let ghost at = items@.len() as int;
        assert(views(old_items)[at] == old_items[at]@);
        assert(input[at] == input.take(at + 1)[at]);
        assert(views(items@) =~= input.take(at)) by {
            assert forall|i: int| 0 <= i < at implies views(items@)[i] == input[i] by {
                assert(views(old_items)[i] == input.take(at + 1)[i]);
            }
        }
        let mut pos: usize = 0;
        while pos < sorted.len() && sorted[pos].is_ahead(&item)
            invariant
                pos <= sorted@.len(),
                s == views(sorted@),
                x == item@,
                forall|i: int| 0 <= i < pos ==> T::ahead(#[trigger] s[i], x),
            decreases sorted@.len() - pos,
        {
            assert(s[pos as int] == sorted@[pos as int]@);
            pos = pos + 1;
        }
        proof {
            assert forall|j: int| pos <= j < s.len() implies !T::ahead(#[trigger] s[j], x) by {
                assert(s[pos as int] == sorted@[pos as int]@);
                if j > pos {
                    assert(T::ahead(s[pos as int], s[j]) || !T::ahead(s[j], s[pos as int]));
                    T::ahead_is_order(s[pos as int], s[j], x);
                    T::ahead_is_order(s[j], s[pos as int], x);
                }
            }
        }
        sorted.insert(pos, item);
        proof {
            p = q.insert(pos as int, at);
            let t = views(sorted@);
            assert(t =~= s.insert(pos as int, x));
            assert forall|i: int| 0 <= i < p.len() implies at <= #[trigger] p[i] < input.len()
                && t[i] == input[p[i]] by {
                if i < pos {
                    assert(p[i] == q[i] && t[i] == s[i]);
                } else if i > pos {
                    assert(p[i] == q[i - 1] && t[i] == s[i - 1]);
                }
            }
            assert forall|i: int, j: int|
                0 <= i < p.len() && 0 <= j < p.len() && i != j implies p[i] != p[j] by {
                let i0 = if i < pos {
                    i
                } else {
                    i - 1
                };
                let j0 = if j < pos {
                    j
                } else {
                    j - 1
                };
                if i != pos {
                    assert(p[i] == q[i0]);
                }
                if j != pos {
                    assert(p[j] == q[j0]);
                }
            }
            assert forall|i: int, j: int|
                #![trigger t[i], t[j]]
                0 <= i < j < t.len() implies T::ahead(t[i], t[j]) || (!T::ahead(t[j], t[i]) && p[i]
                < p[j]) by {
                let i0 = if i < pos {
                    i
                } else {
                    i - 1
                };
                let j0 = if j < pos {
                    j
                } else {
                    j - 1
                };
                if i == pos {
                    assert(t[j] == s[j0] && p[j] == q[j0]);
                } else if j == pos {
                    assert(t[i] == s[i0]);
                } else {
                    assert(t[i] == s[i0] && t[j] == s[j0]);
                    assert(p[i] == q[i0] && p[j] == q[j0]);
                }
            }
        }
    }
    assert(ranked_by::<T>(input, views(sorted@), p));
    sorted
}

} // verus!
