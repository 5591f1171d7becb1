//! Orders and ordered insertion.

use vstd::prelude::*;
use vstd::utf8::encode_utf8;

verus! {

/// Byte-wise lexicographic order, the order of strings.
pub open spec fn lex_le(a: Seq<u8>, b: Seq<u8>) -> bool
    decreases a.len(),
{
    a.len() == 0 || (b.len() > 0 && (a[0] < b[0] || (a[0] == b[0] && lex_le(a.skip(1), b.skip(1)))))
}

/// The order of strings.
pub open spec fn name_le(a: Seq<char>, b: Seq<char>) -> bool {
    lex_le(encode_utf8(a), encode_utf8(b))
}

/// Whether `a` comes before `b` in the order of strings, or is the same.
pub fn str_le(a: &str, b: &str) -> (r: bool)
    ensures
        r == name_le(a@, b@),
{
    let x = a.as_bytes();
    let y = b.as_bytes();
    let mut i: usize = 0;
    assert(x@.skip(0) =~= x@);
    assert(y@.skip(0) =~= y@);
    while i < x.len()
        invariant
            i <= x@.len(),
            i <= y@.len(),
            lex_le(x@.skip(i as int), y@.skip(i as int)) == name_le(a@, b@),
        decreases x@.len() - i,
    {
        if i >= y.len() || x[i] > y[i] {
            return false;
        }
        if x[i] < y[i] {
            return true;
        }
        assert(x@.skip(i as int).skip(1) =~= x@.skip(i + 1));
        assert(y@.skip(i as int).skip(1) =~= y@.skip(i + 1));
        i = i + 1;
    }
    true
}

/// Where `x` goes in `s`: in front of the first element that is not at or before it.
pub open spec fn insert_pos<T>(s: Seq<T>, x: T, le: spec_fn(T, T) -> bool) -> nat
    decreases s.len(),
{
    if s.len() == 0 || !le(s[0], x) {
        0
    } else {
        1 + insert_pos(s.skip(1), x, le)
    }
}

/// `s` with `x` put behind the elements that come before it or equal it.
pub open spec fn insert_by<T>(s: Seq<T>, x: T, le: spec_fn(T, T) -> bool) -> Seq<T> {
    s.insert(insert_pos(s, x, le) as int, x)
}

/// `s` in order, elements that equal each other as they stood.
pub open spec fn stable_sort<T>(s: Seq<T>, le: spec_fn(T, T) -> bool) -> Seq<T>
    decreases s.len(),
{
    if s.len() == 0 {
        Seq::empty()
    } else {
        insert_by(stable_sort(s.drop_last(), le), s.last(), le)
    }
}

/// The insertion position lies within the sequence.
pub proof fn lemma_insert_pos_bound<T>(s: Seq<T>, x: T, le: spec_fn(T, T) -> bool)
    ensures
        insert_pos(s, x, le) <= s.len(),
    decreases s.len(),
{
    if s.len() > 0 {
        lemma_insert_pos_bound(s.skip(1), x, le);
    }
}

/// The insertion position is the first index whose element is not at or before `x`.
pub proof fn lemma_insert_pos<T>(s: Seq<T>, x: T, le: spec_fn(T, T) -> bool, i: int)
    requires
        0 <= i <= s.len(),
        forall|j: int| 0 <= j < i ==> le(#[trigger] s[j], x),
        i < s.len() ==> !le(s[i], x),
    ensures
        insert_pos(s, x, le) == i,
    decreases s.len(),
{
    if i > 0 {
        let tail = s.skip(1);
        assert(le(s[0], x));
        assert forall|j: int| 0 <= j < i - 1 implies le(#[trigger] tail[j], x) by {
            assert(tail[j] == s[j + 1]);
        }
        lemma_insert_pos(tail, x, le, i - 1);
    }
}

/// Sorting keeps the number of elements.
pub proof fn lemma_stable_sort_len<T>(s: Seq<T>, le: spec_fn(T, T) -> bool)
    ensures
        stable_sort(s, le).len() == s.len(),
    decreases s.len(),
{
    if s.len() > 0 {
        lemma_stable_sort_len(s.drop_last(), le);
        lemma_insert_pos_bound(stable_sort(s.drop_last(), le), s.last(), le);
    }
}

/// The numeric order of ids.
pub open spec fn id_le() -> spec_fn(u64, u64) -> bool {
    |a: u64, b: u64| a <= b
}

/// An ascending run of ids with one more id in it, unless it is there already.
pub open spec fn id_insert(ids: Seq<u64>, id: u64) -> Seq<u64> {
    if ids.contains(id) {
        ids
    } else {
        insert_by(ids, id, id_le())
    }
}

/// Puts `id` into an ascending run of ids, unless it is there already.
pub fn insert_id(ids: &mut Vec<u64>, id: u64)
    requires
        forall|i: int, j: int| 0 <= i < j < old(ids)@.len() ==> old(ids)@[i] < old(ids)@[j],
    ensures
        final(ids)@ == id_insert(old(ids)@, id),
        forall|i: int, j: int| 0 <= i < j < final(ids)@.len() ==> final(ids)@[i] < final(ids)@[j],
{
    let ghost s = ids@;
    let mut i: usize = 0;
    while i < ids.len() && ids[i] < id
        invariant
            i <= ids@.len(),
            ids@ == s,
            forall|j: int| 0 <= j < i ==> ids@[j] < id,
        decreases ids@.len() - i,
    {
        i = i + 1;
    }
    if i < ids.len() && ids[i] == id {
        assert(s.contains(id)) by {
            assert(s[i as int] == id);
        }
        return;
    }
    proof {
        assert(!s.contains(id)) by {
            if s.contains(id) {
                let k = choose|k: int| 0 <= k < s.len() && s[k] == id;
                if k > i {
                    assert(s[i as int] < s[k]);
                }
            }
        }
        lemma_insert_pos(s, id, id_le(), i as int);
    }
    ids.insert(i, id);
}

/// Sorting keeps the elements.
pub proof fn lemma_stable_sort_contains<T>(s: Seq<T>, le: spec_fn(T, T) -> bool, x: T)
    ensures
        stable_sort(s, le).contains(x) == s.contains(x),
    decreases s.len(),
{
    if s.len() == 0 {
        assert(stable_sort(s, le) =~= s);
    } else {
        let init = s.drop_last();
        let sorted = stable_sort(init, le);
        let p = insert_pos(sorted, s.last(), le) as int;
        let all = sorted.insert(p, s.last());
        lemma_stable_sort_contains(init, le, x);
        lemma_insert_pos_bound(sorted, s.last(), le);
        if all.contains(x) {
            let i = choose|i: int| 0 <= i < all.len() && all[i] == x;
            if i == p {
                assert(s[s.len() - 1] == x);
            } else {
                let j = if i < p {
                    i
                } else {
                    i - 1
                };
                assert(sorted[j] == x);
                assert(sorted.contains(x));
                let k = choose|k: int| 0 <= k < init.len() && init[k] == x;
                assert(s[k] == x);
            }
        }
        if s.contains(x) {
            let k = choose|k: int| 0 <= k < s.len() && s[k] == x;
            if k == s.len() - 1 {
                assert(all[p] == x);
            } else {
                assert(init[k] == x);
                assert(init.contains(x));
                let j = choose|j: int| 0 <= j < sorted.len() && sorted[j] == x;
                assert(all[if j < p {
                    j
                } else {
                    j + 1
                }] == x);
            }
        }
    }
}

/// Elements stand in order.
pub open spec fn ordered<T>(s: Seq<T>, le: spec_fn(T, T) -> bool) -> bool {
    forall|i: int, j: int| #![trigger s[i], s[j]] 0 <= i < j < s.len() ==> le(s[i], s[j])
}

/// Any two elements are in order one way or the other, and the order carries over.
pub open spec fn is_order<T>(le: spec_fn(T, T) -> bool) -> bool {
    &&& forall|a: T, b: T| #[trigger] le(a, b) || le(b, a)
    &&& forall|a: T, b: T, c: T| #[trigger] le(a, b) && #[trigger] le(b, c) ==> le(a, c)
}

/// The elements in front of the insertion position are not after the element; the one at it is.
pub proof fn lemma_insert_split<T>(s: Seq<T>, x: T, le: spec_fn(T, T) -> bool)
    ensures
        insert_pos(s, x, le) <= s.len(),
        forall|j: int| 0 <= j < insert_pos(s, x, le) ==> le(#[trigger] s[j], x),
        insert_pos(s, x, le) < s.len() ==> !le(s[insert_pos(s, x, le) as int], x),
    decreases s.len(),
{
    if s.len() > 0 && le(s[0], x) {
        let tail = s.skip(1);
        lemma_insert_split(tail, x, le);
        assert forall|j: int| 0 <= j < insert_pos(s, x, le) implies le(#[trigger] s[j], x) by {
            if j > 0 {
                assert(tail[j - 1] == s[j]);
            }
        }
    }
}

/// An element put in its place keeps the others in order.
pub proof fn lemma_insert_ordered<T>(s: Seq<T>, x: T, le: spec_fn(T, T) -> bool)
    requires
        is_order(le),
        ordered(s, le),
    ensures
        ordered(insert_by(s, x, le), le),
{
    let p = insert_pos(s, x, le) as int;
    let all = insert_by(s, x, le);
    lemma_insert_split(s, x, le);
    assert forall|j: int| p <= j < s.len() implies le(x, #[trigger] s[j]) by {
        assert(le(s[p], x) || le(x, s[p]));
        if j > p {
            assert(le(s[p], s[j]));
        }
    }
    assert forall|i: int, j: int|
        #![trigger all[i], all[j]]
        0 <= i < j < all.len() implies le(all[i], all[j]) by {
        let i0 = if i < p {
            i
        } else {
            i - 1
        };
        let j0 = if j < p {
            j
        } else {
            j - 1
        };
        if i != p && j != p {
            assert(all[i] == s[i0] && all[j] == s[j0]);
        } else if i == p {
            assert(all[j] == s[j0]);
        } else {
            assert(all[i] == s[i0]);
        }
    }
}

/// Sorting puts elements in order.
pub proof fn lemma_stable_sort_ordered<T>(s: Seq<T>, le: spec_fn(T, T) -> bool)
    requires
        is_order(le),
    ensures
        ordered(stable_sort(s, le), le),
    decreases s.len(),
{
    if s.len() > 0 {
        lemma_stable_sort_ordered(s.drop_last(), le);
        lemma_insert_ordered(stable_sort(s.drop_last(), le), s.last(), le);
    }
}

/// Sorting leaves elements in order as they stand.
pub proof fn lemma_stable_sort_same<T>(s: Seq<T>, le: spec_fn(T, T) -> bool)
    requires
        ordered(s, le),
    ensures
        stable_sort(s, le) == s,
    decreases s.len(),
{
    if s.len() > 0 {
        let init = s.drop_last();
        assert(ordered(init, le)) by {
            assert forall|i: int, j: int|
                #![trigger init[i], init[j]]
                0 <= i < j < init.len() implies le(init[i], init[j]) by {
                assert(init[i] == s[i] && init[j] == s[j]);
            }
        }
        lemma_stable_sort_same(init, le);
        let n = s.len() - 1;
        assert forall|j: int| 0 <= j < n implies le(#[trigger] init[j], s.last()) by {
            assert(init[j] == s[j] && s[n] == s.last());
        }
        lemma_insert_pos(init, s.last(), le, n);
        assert(init.insert(n, s.last()) =~= s);
    } else {
        assert(stable_sort(s, le) =~= s);
    }
}

/// The byte-wise order is an order.
pub proof fn lemma_lex_total(a: Seq<u8>, b: Seq<u8>)
    ensures
        lex_le(a, b) || lex_le(b, a),
    decreases a.len(),
{
    if a.len() > 0 && b.len() > 0 && a[0] == b[0] {
        lemma_lex_total(a.skip(1), b.skip(1));
    }
}

/// The byte-wise order carries over.
pub proof fn lemma_lex_transitive(a: Seq<u8>, b: Seq<u8>, c: Seq<u8>)
    requires
        lex_le(a, b),
        lex_le(b, c),
    ensures
        lex_le(a, c),
    decreases a.len(),
{
    if a.len() > 0 && b.len() > 0 && c.len() > 0 && a[0] == b[0] && b[0] == c[0] {
        lemma_lex_transitive(a.skip(1), b.skip(1), c.skip(1));
    }
}

} // verus!
