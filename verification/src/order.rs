//! Ascending-order pages of a set of document ids.
//!
//! The engine emits ids in ascending order and pages them with a `from`
//! offset and a `length` bound. `is_page` characterises such a page purely
//! by ranks: it pins the returned sequence down uniquely, and pagination
//! composability is proved over it.

use vstd::prelude::*;
use vstd::set_lib::lemma_len_subset;

verus! {

/// The ids in `s` strictly ascend.
pub open spec fn strictly_increasing(s: Seq<u32>) -> bool {
    forall|i: int, j: int| 0 <= i < j < s.len() ==> s[i] < s[j]
}

/// The ids of `s` strictly below `x`.
pub open spec fn ids_below(s: Set<u32>, x: u32) -> Set<u32> {
    s.filter(|y: u32| y < x)
}

/// Position of `x` in the ascending enumeration of `s`.
pub open spec fn rank_in(s: Set<u32>, x: u32) -> nat {
    ids_below(s, x).len()
}

/// `q` is the page of `s` that starts at offset `from` and holds at most
/// `length` ids, in ascending id order.
pub open spec fn is_page(s: Set<u32>, q: Seq<u32>, from: int, length: int) -> bool {
    &&& strictly_increasing(q)
    &&& forall|x: u32|
        #![trigger q.contains(x)]
        #![trigger rank_in(s, x)]
        q.contains(x) <==> (s.contains(x) && from <= rank_in(s, x) < from + length)
}

/// The ids of the page of `s` at offset `from` with bound `length`.
pub open spec fn page_ids(s: Set<u32>, from: int, length: int) -> Set<u32> {
    Set::new(|x: u32| s.contains(x) && from <= rank_in(s, x) < from + length)
}

pub proof fn lemma_ids_below_finite(s: Set<u32>, x: u32)
    requires
        s.finite(),
    ensures
        ids_below(s, x).finite(),
        ids_below(s, x).len() <= s.len(),
{
    s.lemma_len_filter(|y: u32| y < x);
}

/// Ranks in a finite set ascend strictly with the ids.
pub proof fn lemma_rank_mono(s: Set<u32>, x: u32, y: u32)
    requires
        s.finite(),
        s.contains(x),
        s.contains(y),
        x < y,
    ensures
        rank_in(s, x) < rank_in(s, y),
{
    lemma_ids_below_finite(s, x);
    lemma_ids_below_finite(s, y);
    assert(ids_below(s, y).contains(x));
    assert(ids_below(s, x).subset_of(ids_below(s, y).remove(x)));
    lemma_len_subset(ids_below(s, x), ids_below(s, y).remove(x));
    assert(ids_below(s, y).remove(x).len() == ids_below(s, y).len() - 1);
}

/// Conversely, an id of smaller rank is the smaller id.
pub proof fn lemma_rank_mono_conv(s: Set<u32>, x: u32, y: u32)
    requires
        s.finite(),
        s.contains(x),
        s.contains(y),
        rank_in(s, x) < rank_in(s, y),
    ensures
        x < y,
{
    if x == y {
        assert(false);
    } else if y < x {
        lemma_rank_mono(s, y, x);
        assert(false);
    }
}

/// Every member's rank lies below the cardinality of the set.
pub proof fn lemma_rank_lt_len(s: Set<u32>, x: u32)
    requires
        s.finite(),
        s.contains(x),
    ensures
        rank_in(s, x) < s.len(),
{
    lemma_ids_below_finite(s, x);
    assert(ids_below(s, x).subset_of(s.remove(x)));
    lemma_len_subset(ids_below(s, x), s.remove(x));
    assert(s.remove(x).len() == s.len() - 1);
}

/// A strictly ascending sequence repeats no id.
pub proof fn lemma_strictly_increasing_no_duplicates(v: Seq<u32>)
    requires
        strictly_increasing(v),
    ensures
        v.no_duplicates(),
{
    assert forall|i: int, j: int| 0 <= i < v.len() && 0 <= j < v.len() && i != j
        implies v[i] != v[j] by {
        if i < j {
            assert(v[i] < v[j]);
        } else {
            assert(v[j] < v[i]);
        }
    }
}

/// In an ascending enumeration of exactly the members of `s`, the id at
/// position `i` has rank `i`.
pub proof fn lemma_ascending_rank(s: Set<u32>, v: Seq<u32>, i: int)
    requires
        s.finite(),
        strictly_increasing(v),
        forall|j: int| 0 <= j < v.len() ==> s.contains(v[j]),
        forall|x: u32| s.contains(x) ==> v.contains(x),
        0 <= i < v.len(),
    ensures
        rank_in(s, v[i]) == i,
{
    broadcast use vstd::seq_lib::seq_to_set_is_finite;

    let b = ids_below(s, v[i]);
    let p = v.take(i);
    assert forall|x: u32| b.contains(x) implies p.to_set().contains(x) by {
        assert(s.contains(x) && x < v[i]);
        assert(v.contains(x));
        let j = choose|j: int| 0 <= j < v.len() && v[j] == x;
        if j > i {
            assert(v[i] < v[j]);
            assert(false);
        }
        if j == i {
            assert(false);
        }
        assert(p[j] == x);
        assert(p.contains(x));
    }
    assert forall|x: u32| p.to_set().contains(x) implies b.contains(x) by {
        assert(p.contains(x));
        let j = choose|j: int| 0 <= j < p.len() && p[j] == x;
        assert(v[j] == x);
        assert(v[j] < v[i]);
        assert(s.contains(x));
    }
    assert(b =~= p.to_set());
    assert(strictly_increasing(p));
    lemma_strictly_increasing_no_duplicates(p);
    p.unique_seq_to_set();
}

/// A consecutive slice of an ascending complete enumeration of `s` is a page.
pub proof fn lemma_slice_is_page(s: Set<u32>, v: Seq<u32>, from: int, length: int)
    requires
        s.finite(),
        strictly_increasing(v),
        forall|j: int| 0 <= j < v.len() ==> s.contains(v[j]),
        forall|x: u32| s.contains(x) ==> v.contains(x),
        0 <= from <= v.len(),
        0 <= length,
    ensures
        is_page(
            s,
            v.subrange(from, if from + length <= v.len() { from + length } else { v.len() as int }),
            from,
            length,
        ),
{
    let hi = if from + length <= v.len() { from + length } else { v.len() as int };
    let q = v.subrange(from, hi);
    assert(strictly_increasing(q));
    assert forall|x: u32| q.contains(x)
        implies (s.contains(x) && from <= rank_in(s, x) < from + length) by {
        let j = choose|j: int| 0 <= j < q.len() && q[j] == x;
        assert(v[from + j] == x);
        assert(s.contains(x));
        lemma_ascending_rank(s, v, from + j);
    }
    assert forall|x: u32| s.contains(x) && from <= rank_in(s, x) < from + length
        implies q.contains(x) by {
        assert(v.contains(x));
        let j = choose|j: int| 0 <= j < v.len() && v[j] == x;
        lemma_ascending_rank(s, v, j);
        assert(from <= j < hi);
        assert(q[j - from] == x);
        assert(q.contains(x));
    }
}

/// Extending a prefix by one element inserts exactly that element.
pub proof fn lemma_take_one_more(v: Seq<u32>, i: int)
    requires
        0 <= i < v.len(),
    ensures
        v.take(i + 1).to_set() == v.take(i).to_set().insert(v[i]),
{
    let pre = v.take(i).to_set();
    let post = v.take(i + 1).to_set();
    assert forall|x: u32| post.contains(x) implies pre.insert(v[i]).contains(x) by {
        assert(v.take(i + 1).contains(x));
        let j = choose|j: int| 0 <= j < i + 1 && #[trigger] v.take(i + 1)[j] == x;
        if j < i {
            assert(v.take(i)[j] == x);
            assert(v.take(i).contains(x));
        }
    }
    assert forall|x: u32| pre.insert(v[i]).contains(x) implies post.contains(x) by {
        if x == v[i] {
            assert(v.take(i + 1)[i] == x);
            assert(v.take(i + 1).contains(x));
        } else {
            let j = choose|j: int| 0 <= j < i && #[trigger] v.take(i)[j] == x;
            assert(v.take(i + 1)[j] == x);
            assert(v.take(i + 1).contains(x));
        }
    }
    assert(post =~= pre.insert(v[i]));
}

/// In an ascending sequence, everything in a prefix lies strictly below the
/// next element.
pub proof fn lemma_sorted_prefix_below(v: Seq<u32>, i: int)
    requires
        strictly_increasing(v),
        0 <= i < v.len(),
    ensures
        forall|x: u32| v.take(i).to_set().contains(x) ==> x < v[i],
{
    assert forall|x: u32| v.take(i).to_set().contains(x) implies x < v[i] by {
        let j = choose|j: int| 0 <= j < i && #[trigger] v.take(i)[j] == x;
        assert(v[j] == x);
    }
}

/// In an ascending complete enumeration of `s`, everything of `s` strictly
/// below the next element already sits in the prefix.
pub proof fn lemma_sorted_prefix_complete(s: Set<u32>, v: Seq<u32>, i: int)
    requires
        strictly_increasing(v),
        forall|x: u32| s.contains(x) ==> v.contains(x),
        0 <= i < v.len(),
    ensures
        forall|x: u32| s.contains(x) && x < v[i] ==> v.take(i).to_set().contains(x),
{
    assert forall|x: u32| s.contains(x) && x < v[i] implies v.take(i).to_set().contains(x) by {
        assert(v.contains(x));
        let j = choose|j: int| 0 <= j < v.len() && v[j] == x;
        if j >= i {
            if j == i {
                assert(false);
            } else {
                assert(v[i] < v[j]);
                assert(false);
            }
        }
        assert(v.take(i)[j] == x);
        assert(v.take(i).contains(x));
    }
}

/// Pagination composes: the page of `k` ids at offset 0 followed by the page
/// of `m` ids at offset `k` is the page of `k + m` ids at offset 0 — over the
/// same snapshot of candidate ids.
pub proof fn lemma_pagination_concat(s: Set<u32>, a: Seq<u32>, b: Seq<u32>, k: int, m: int)
    requires
        s.finite(),
        0 <= k,
        0 <= m,
        is_page(s, a, 0, k),
        is_page(s, b, k, m),
    ensures
        is_page(s, a + b, 0, k + m),
{
    let c = a + b;
    assert forall|i: int, j: int| 0 <= i < j < c.len() implies c[i] < c[j] by {
        if j < a.len() {
            assert(a[i] < a[j]);
        } else if i >= a.len() {
            assert(b[i - a.len()] < b[j - a.len()]);
        } else {
            let x = a[i];
            let y = b[j - a.len()];
            assert(a.contains(x));
            assert(b.contains(y));
            assert(rank_in(s, x) < k);
            assert(k <= rank_in(s, y));
            lemma_rank_mono_conv(s, x, y);
        }
    }
    assert forall|x: u32| c.contains(x)
        implies (s.contains(x) && 0 <= rank_in(s, x) < k + m) by {
        let j = choose|j: int| 0 <= j < c.len() && c[j] == x;
        if j < a.len() {
            assert(a[j] == x);
            assert(a.contains(x));
        } else {
            assert(b[j - a.len()] == x);
            assert(b.contains(x));
        }
    }
    assert forall|x: u32| s.contains(x) && 0 <= rank_in(s, x) < k + m
        implies c.contains(x) by {
        if rank_in(s, x) < k {
            assert(a.contains(x));
            let j = choose|j: int| 0 <= j < a.len() && a[j] == x;
            assert(c[j] == x);
        } else {
            assert(b.contains(x));
            let j = choose|j: int| 0 <= j < b.len() && b[j] == x;
            assert(c[a.len() + j] == x);
        }
        assert(c.contains(x));
    }
}

} // verus!
