//! Stable sorting by key, in UTF-8 byte order.

use crate::text::{
    key_le, key_less, key_lt, lemma_key_le_transitive, lemma_key_lt_asymmetric,
    lemma_key_lt_irreflexive, lemma_key_lt_total,
};
use vstd::prelude::*;

verus! {

/// An item that is ordered by a text key.
pub trait Keyed: Sized {
    /// The key that orders the item.
    spec fn sort_key(&self) -> Seq<char>;

    /// The key that orders the item.
    fn key_text(&self) -> (k: &str)
        ensures
            k@ == self.sort_key(),
    ;
}

impl Keyed for String {
    open spec fn sort_key(&self) -> Seq<char> {
        self@
    }

    fn key_text(&self) -> (k: &str) {
        self.as_str()
    }
}

/// No item sorts before an earlier one.
pub open spec fn sorted<T: Keyed>(s: Seq<T>) -> bool {
    forall|i: int, j: int|
        0 <= i < j < s.len() ==> key_le(#[trigger] s[i].sort_key(), #[trigger] s[j].sort_key())
}

/// The items of `s` whose key is `k`, in their order.
pub open spec fn with_key<T: Keyed>(s: Seq<T>, k: Seq<char>) -> Seq<T> {
    s.filter(|e: T| e.sort_key() == k)
}

/// `output` is `input` sorted by key, items of equal keys keeping their order.
pub open spec fn is_stable_sort<T: Keyed>(input: Seq<T>, output: Seq<T>) -> bool {
    &&& sorted(output)
    &&& forall|k: Seq<char>| #[trigger] with_key(output, k) == with_key(input, k)
}

/// What a single item contributes to the items of key `k`.
proof fn lemma_with_key_single<T: Keyed>(x: T, k: Seq<char>)
    ensures
        x.sort_key() == k ==> with_key(seq![x], k) == seq![x],
        x.sort_key() != k ==> with_key(seq![x], k) == Seq::<T>::empty(),
{
    reveal_with_fuel(Seq::filter, 2);
    assert(seq![x].drop_last() =~= Seq::<T>::empty());
    assert(Seq::<T>::empty().push(x) =~= seq![x]);
}

/// No item of a sequence without key `k` has key `k`.
proof fn lemma_with_key_absent<T: Keyed>(s: Seq<T>, k: Seq<char>)
    requires
        forall|i: int| 0 <= i < s.len() ==> (#[trigger] s[i]).sort_key() != k,
    ensures
        with_key(s, k) == Seq::<T>::empty(),
    decreases s.len(),
{
    reveal(Seq::filter);
    if s.len() > 0 {
        lemma_with_key_absent(s.drop_last(), k);
        assert(s.last() == s[s.len() - 1]);
    }
}

/// The number of occurrences of an item among those of its own key is its number of
/// occurrences at all.
proof fn lemma_with_key_count<T: Keyed>(s: Seq<T>, x: T)
    ensures
        with_key(s, x.sort_key()).to_multiset().count(x) == s.to_multiset().count(x),
    decreases s.len(),
{
    reveal(Seq::filter);
    broadcast use vstd::seq_lib::group_to_multiset_ensures;

    if s.len() > 0 {
        let k = x.sort_key();
        let front = s.drop_last();
        lemma_with_key_count(front, x);
        assert(s =~= front.push(s.last()));
        assert(s.to_multiset() =~= front.to_multiset().insert(s.last()));
        if s.last().sort_key() == k {
            assert(with_key(s, k) =~= with_key(front, k).push(s.last()));
            assert(with_key(s, k).to_multiset() =~= with_key(front, k).to_multiset().insert(
                s.last(),
            ));
        } else {
            assert(with_key(s, k) =~= with_key(front, k));
        }
    } else {
        assert(with_key(s, x.sort_key()) =~= s);
    }
}

/// A stable sort loses nothing and adds nothing.
pub proof fn lemma_stable_sort_permutes<T: Keyed>(input: Seq<T>, output: Seq<T>)
    requires
        is_stable_sort(input, output),
    ensures
        input.to_multiset() == output.to_multiset(),
        input.len() == output.len(),
        forall|x: T| input.contains(x) <==> output.contains(x),
{
    broadcast use vstd::seq_lib::group_to_multiset_ensures;

    assert forall|x: T| input.to_multiset().count(x) == output.to_multiset().count(x) by {
        lemma_with_key_count(input, x);
        lemma_with_key_count(output, x);
        assert(with_key(output, x.sort_key()) == with_key(input, x.sort_key()));
    }
    assert(input.to_multiset() =~= output.to_multiset());
    assert(input.len() == input.to_multiset().len());
    assert(output.len() == output.to_multiset().len());
    assert forall|x: T| input.contains(x) <==> output.contains(x) by {
        assert(input.contains(x) <==> input.to_multiset().count(x) > 0);
        assert(output.contains(x) <==> output.to_multiset().count(x) > 0);
    }
}

/// No item of a sorted sequence has a greater key than the last one.
proof fn lemma_last_greatest<T: Keyed>(s: Seq<T>, x: T)
    requires
        sorted(s),
        s.contains(x),
    ensures
        key_le(x.sort_key(), s.last().sort_key()),
{
    let i = choose|i: int| 0 <= i < s.len() && s[i] == x;
    if i < s.len() - 1 {
        assert(key_le(s[i].sort_key(), s[s.len() - 1].sort_key()));
    }
}

/// There is only one stable sort of a sequence.
pub proof fn lemma_stable_sort_unique<T: Keyed>(input: Seq<T>, a: Seq<T>, b: Seq<T>)
    requires
        is_stable_sort(input, a),
        is_stable_sort(input, b),
    ensures
        a == b,
{
    lemma_stable_sort_permutes(input, a);
    lemma_stable_sort_permutes(input, b);
    assert forall|k: Seq<char>| #[trigger] with_key(a, k) == with_key(b, k) by {
        assert(with_key(a, k) == with_key(input, k));
    }
    lemma_sorted_unique(a, b);
}

proof fn lemma_sorted_unique<T: Keyed>(a: Seq<T>, b: Seq<T>)
    requires
        sorted(a),
        sorted(b),
        a.len() == b.len(),
        forall|k: Seq<char>| #[trigger] with_key(a, k) == with_key(b, k),
    ensures
        a == b,
    decreases a.len(),
{
    reveal(Seq::filter);
    if a.len() > 0 {
        let ka = a.last().sort_key();
        let kb = b.last().sort_key();
        assert(is_stable_sort(a, b));
        lemma_stable_sort_permutes(a, b);
        assert(a.contains(a.last()) && b.contains(b.last()));
        lemma_last_greatest(b, a.last());
        lemma_last_greatest(a, b.last());
        if ka != kb {
            lemma_key_lt_asymmetric(ka, kb);
        }
        assert(with_key(a, ka).last() == a.last());
        assert(with_key(b, ka).last() == b.last());
        assert(with_key(a, ka) == with_key(b, ka));
        let x = a.drop_last();
        let y = b.drop_last();
        assert forall|k: Seq<char>| #[trigger] with_key(x, k) == with_key(y, k) by {
            assert(with_key(a, k) == with_key(b, k));
            if k == ka {
                assert(with_key(a, k).drop_last() =~= with_key(x, k));
                assert(with_key(b, k).drop_last() =~= with_key(y, k));
            }
        }
        assert(sorted(x)) by {
            assert forall|i: int, j: int| 0 <= i < j < x.len() implies key_le(
                #[trigger] x[i].sort_key(),
                #[trigger] x[j].sort_key(),
            ) by {
                assert(x[i] == a[i] && x[j] == a[j]);
            }
        }
        assert(sorted(y)) by {
            assert forall|i: int, j: int| 0 <= i < j < y.len() implies key_le(
                #[trigger] y[i].sort_key(),
                #[trigger] y[j].sort_key(),
            ) by {
                assert(y[i] == b[i] && y[j] == b[j]);
            }
        }
        lemma_sorted_unique(x, y);
        assert(a =~= x.push(a.last()));
        assert(b =~= y.push(b.last()));
    } else {
        assert(a =~= b);
    }
}

/// The last item of a sorted sequence has a greatest key.
proof fn lemma_sorted_last<T: Keyed>(s: Seq<T>, x: T)
    requires
        sorted(s),
        s.len() > 0,
        key_lt(s.last().sort_key(), x.sort_key()),
    ensures
        forall|i: int| 0 <= i < s.len() ==> (#[trigger] s[i]).sort_key() != x.sort_key(),
{
    assert forall|i: int| 0 <= i < s.len() implies (#[trigger] s[i]).sort_key()
        != x.sort_key() by {
        lemma_key_lt_asymmetric(s.last().sort_key(), x.sort_key());
        if i < s.len() - 1 {
            assert(key_le(s[i].sort_key(), s[s.len() - 1].sort_key()));
            if s[i].sort_key() == x.sort_key() {
                lemma_key_lt_irreflexive(x.sort_key());
            }
        }
    }
}

/// `v` back to front.
pub(crate) fn reversed<T>(v: Vec<T>) -> (r: Vec<T>)
    ensures
        r@ == v@.reverse(),
{
    let mut rest = v;
    let mut r: Vec<T> = Vec::new();
    while rest.len() > 0
        invariant
            rest@.len() + r@.len() == v@.len(),
            rest@ == v@.take(rest@.len() as int),
            forall|i: int| 0 <= i < r@.len() ==> r@[i] == v@[v@.len() - 1 - i],
        decreases rest.len(),
    {
        match rest.pop() {
            Some(x) => r.push(x),
            None => {},
        }
    }
    assert(r@ =~= v@.reverse());
    r
}

/// No item of `s` sorts after an item of `t`.
pub open spec fn all_le<T: Keyed>(s: Seq<T>, t: Seq<T>) -> bool {
    forall|i: int, j: int|
        0 <= i < s.len() && 0 <= j < t.len() ==> key_le(
            #[trigger] s[i].sort_key(),
            #[trigger] t[j].sort_key(),
        )
}

/// While merging `l` and `r`: `a` and `b` are what is left of the runs, and `tail` is the
/// sorted end of the result.
spec fn merging<T: Keyed>(l: Seq<T>, r: Seq<T>, a: Seq<T>, b: Seq<T>, tail: Seq<T>) -> bool {
    &&& sorted(a)
    &&& sorted(b)
    &&& sorted(tail)
    &&& all_le(a, tail)
    &&& all_le(b, tail)
    &&& forall|k: Seq<char>|
        with_key(l, k) + with_key(r, k) == with_key(a, k) + with_key(b, k) + #[trigger] with_key(
            tail,
            k,
        )
}

/// Every item of a sorted run is at most its last one, and so at most what that is at most.
proof fn lemma_run_le<T: Keyed>(s: Seq<T>, x: T)
    requires
        sorted(s),
        s.len() > 0,
        key_le(s.last().sort_key(), x.sort_key()),
    ensures
        all_le(s, seq![x]),
{
    assert forall|i: int, j: int| 0 <= i < s.len() && 0 <= j < seq![x].len() implies key_le(
        #[trigger] s[i].sort_key(),
        #[trigger] seq![x][j].sort_key(),
    ) by {
        if i < s.len() - 1 {
            assert(key_le(s[i].sort_key(), s[s.len() - 1].sort_key()));
            lemma_key_le_transitive(s[i].sort_key(), s.last().sort_key(), x.sort_key());
        }
    }
}

proof fn lemma_sorted_drop_last<T: Keyed>(s: Seq<T>)
    requires
        sorted(s),
        s.len() > 0,
    ensures
        sorted(s.drop_last()),
{
    assert forall|i: int, j: int| 0 <= i < j < s.drop_last().len() implies key_le(
        #[trigger] s.drop_last()[i].sort_key(),
        #[trigger] s.drop_last()[j].sort_key(),
    ) by {
        assert(key_le(s[i].sort_key(), s[j].sort_key()));
    }
}

proof fn lemma_all_le_extend<T: Keyed>(s: Seq<T>, x: T, tail: Seq<T>)
    requires
        all_le(s, seq![x]),
        all_le(s, tail),
    ensures
        all_le(s, seq![x] + tail),
{
    let t = seq![x] + tail;
    assert forall|i: int, j: int| 0 <= i < s.len() && 0 <= j < t.len() implies key_le(
        #[trigger] s[i].sort_key(),
        #[trigger] t[j].sort_key(),
    ) by {
        if j == 0 {
            assert(key_le(s[i].sort_key(), seq![x][0].sort_key()));
        } else {
            assert(t[j] == tail[j - 1]);
            assert(key_le(s[i].sort_key(), tail[j - 1].sort_key()));
        }
    }
}

proof fn lemma_all_le_sub<T: Keyed>(s: Seq<T>, t: Seq<T>)
    requires
        all_le(s, t),
        s.len() > 0,
    ensures
        all_le(s.drop_last(), t),
{
    assert forall|i: int, j: int|
        0 <= i < s.drop_last().len() && 0 <= j < t.len() implies key_le(
        #[trigger] s.drop_last()[i].sort_key(),
        #[trigger] t[j].sort_key(),
    ) by {
        assert(key_le(s[i].sort_key(), t[j].sort_key()));
    }
}

proof fn lemma_sorted_cons<T: Keyed>(x: T, tail: Seq<T>)
    requires
        sorted(tail),
        forall|j: int| 0 <= j < tail.len() ==> key_le(x.sort_key(), #[trigger] tail[j].sort_key()),
    ensures
        sorted(seq![x] + tail),
{
    let t = seq![x] + tail;
    assert forall|i: int, j: int| 0 <= i < j < t.len() implies key_le(
        #[trigger] t[i].sort_key(),
        #[trigger] t[j].sort_key(),
    ) by {
        assert(t[j] == tail[j - 1]);
        if i > 0 {
            assert(t[i] == tail[i - 1]);
            assert(key_le(tail[i - 1].sort_key(), tail[j - 1].sort_key()));
        }
    }
}

/// Taking the last item of the left run keeps the merge on track when it sorts after the
/// whole right run.
proof fn lemma_take_left<T: Keyed>(l: Seq<T>, r: Seq<T>, a: Seq<T>, b: Seq<T>, tail: Seq<T>)
    requires
        merging(l, r, a, b, tail),
        a.len() > 0,
        b.len() > 0 ==> key_lt(b.last().sort_key(), a.last().sort_key()),
    ensures
        merging(l, r, a.drop_last(), b, seq![a.last()] + tail),
{
    let x = a.last();
    let rest = a.drop_last();
    let t = seq![x] + tail;
    lemma_sorted_drop_last(a);
    lemma_run_le(a, x);
    lemma_all_le_sub(a, seq![x]);
    lemma_all_le_sub(a, tail);
    lemma_all_le_extend(rest, x, tail);
    if b.len() > 0 {
        lemma_run_le(b, x);
    }
    lemma_all_le_extend(b, x, tail);
    assert forall|j: int| 0 <= j < tail.len() implies key_le(
        x.sort_key(),
        #[trigger] tail[j].sort_key(),
    ) by {
        assert(key_le(a[a.len() - 1].sort_key(), tail[j].sort_key()));
    }
    lemma_sorted_cons(x, tail);
    assert forall|k: Seq<char>|
        with_key(l, k) + with_key(r, k) == with_key(rest, k) + with_key(b, k)
            + #[trigger] with_key(t, k) by {
        let p = |e: T| e.sort_key() == k;
        assert(a =~= rest + seq![x]);
        Seq::filter_distributes_over_add(seq![x], tail, p);
        Seq::filter_distributes_over_add(rest, seq![x], p);
        lemma_with_key_single(x, k);
        assert(with_key(l, k) + with_key(r, k) == with_key(a, k) + with_key(b, k) + with_key(
            tail,
            k,
        ));
        if x.sort_key() == k {
            if b.len() > 0 {
                lemma_sorted_last(b, x);
            }
            lemma_with_key_absent(b, k);
        }
        assert(with_key(rest, k) + with_key(b, k) + with_key(t, k) =~= with_key(a, k) + with_key(
            b,
            k,
        ) + with_key(tail, k));
    }
}

/// Taking the last item of the right run keeps the merge on track when no item of the left
/// run sorts after it.
proof fn lemma_take_right<T: Keyed>(l: Seq<T>, r: Seq<T>, a: Seq<T>, b: Seq<T>, tail: Seq<T>)
    requires
        merging(l, r, a, b, tail),
        b.len() > 0,
        a.len() > 0 ==> key_le(a.last().sort_key(), b.last().sort_key()),
    ensures
        merging(l, r, a, b.drop_last(), seq![b.last()] + tail),
{
    let x = b.last();
    let rest = b.drop_last();
    let t = seq![x] + tail;
    lemma_sorted_drop_last(b);
    lemma_run_le(b, x);
    lemma_all_le_sub(b, seq![x]);
    lemma_all_le_sub(b, tail);
    lemma_all_le_extend(rest, x, tail);
    if a.len() > 0 {
        lemma_run_le(a, x);
    }
    lemma_all_le_extend(a, x, tail);
    assert forall|j: int| 0 <= j < tail.len() implies key_le(
        x.sort_key(),
        #[trigger] tail[j].sort_key(),
    ) by {
        assert(key_le(b[b.len() - 1].sort_key(), tail[j].sort_key()));
    }
    lemma_sorted_cons(x, tail);
    assert forall|k: Seq<char>|
        with_key(l, k) + with_key(r, k) == with_key(a, k) + with_key(rest, k)
            + #[trigger] with_key(t, k) by {
        let p = |e: T| e.sort_key() == k;
        assert(b =~= rest + seq![x]);
        Seq::filter_distributes_over_add(seq![x], tail, p);
        Seq::filter_distributes_over_add(rest, seq![x], p);
        assert(with_key(l, k) + with_key(r, k) == with_key(a, k) + with_key(b, k) + with_key(
            tail,
            k,
        ));
        assert(with_key(a, k) + with_key(rest, k) + with_key(t, k) =~= with_key(a, k) + with_key(
            b,
            k,
        ) + with_key(tail, k));
    }
}

/// Merge two sorted runs; among equal keys the items of `left` come first.
fn merge<T: Keyed>(left: Vec<T>, right: Vec<T>) -> (out: Vec<T>)
    requires
        sorted(left@),
        sorted(right@),
    ensures
        sorted(out@),
        forall|k: Seq<char>|
            #[trigger] with_key(out@, k) == with_key(left@, k) + with_key(right@, k),
{
    let mut a = left;
    let mut b = right;
    let mut acc: Vec<T> = Vec::new();
    proof {
        let tail = acc@.reverse();
        assert forall|k: Seq<char>|
            with_key(left@, k) + with_key(right@, k) == with_key(a@, k) + with_key(b@, k)
                + #[trigger] with_key(tail, k) by {
            lemma_with_key_absent(tail, k);
            assert(with_key(a@, k) + with_key(b@, k) + with_key(tail, k) =~= with_key(left@, k)
                + with_key(right@, k));
        }
    }
    while a.len() > 0 || b.len() > 0
        invariant
            merging(left@, right@, a@, b@, acc@.reverse()),
        decreases a.len() + b.len(),
    {
        let from_left: bool = if a.len() == 0 {
            false
        } else if b.len() == 0 {
            true
        } else {
            key_less(b[b.len() - 1].key_text(), a[a.len() - 1].key_text())
        };
        proof {
            if from_left {
                lemma_take_left(left@, right@, a@, b@, acc@.reverse());
                assert(acc@.push(a@.last()).reverse() =~= seq![a@.last()] + acc@.reverse());
            } else {
                if a@.len() > 0 {
                    lemma_key_lt_total(a@.last().sort_key(), b@.last().sort_key());
                }
                lemma_take_right(left@, right@, a@, b@, acc@.reverse());
                assert(acc@.push(b@.last()).reverse() =~= seq![b@.last()] + acc@.reverse());
            }
        }
        let popped: Option<T> = if from_left {
            a.pop()
        } else {
            b.pop()
        };
        if let Some(x) = popped {
            acc.push(x);
        }
    }
    let out = reversed(acc);
    proof {
        assert forall|k: Seq<char>|
            #[trigger] with_key(out@, k) == with_key(left@, k) + with_key(right@, k) by {
            lemma_with_key_absent(a@, k);
            lemma_with_key_absent(b@, k);
            assert(with_key(left@, k) + with_key(right@, k) == with_key(a@, k) + with_key(b@, k)
                + with_key(out@, k));
            assert(with_key(a@, k) + with_key(b@, k) + with_key(out@, k) =~= with_key(out@, k));
        }
    }
    out
}

/// Sort by key in UTF-8 byte order; items of equal keys keep their order.
pub fn sort_by_key<T: Keyed>(v: Vec<T>) -> (out: Vec<T>)
    ensures
        is_stable_sort(v@, out@),
    decreases v@.len(),
{
    let n: usize = v.len();
    if n < 2 {
        return v;
    }
    let mut left = v;
    let right = left.split_off(n / 2);
    let ghost l0 = left@;
    let ghost r0 = right@;
    let left = sort_by_key(left);
    let right = sort_by_key(right);
    let out = merge(left, right);
    proof {
        assert(v@ =~= l0 + r0);
        assert forall|k: Seq<char>| #[trigger] with_key(out@, k) == with_key(v@, k) by {
            Seq::filter_distributes_over_add(l0, r0, |e: T| e.sort_key() == k);
            assert(with_key(left@, k) == with_key(l0, k));
            assert(with_key(right@, k) == with_key(r0, k));
        }
    }
    out
}

/// The items of key `k` by another word for it.
proof fn lemma_with_key_filter<T: Keyed>(s: Seq<T>, k: Seq<char>, has: spec_fn(T) -> bool)
    requires
        forall|e: T| #[trigger] has(e) <==> e.sort_key() == k,
    ensures
        with_key(s, k) == s.filter(has),
    decreases s.len(),
{
    reveal(Seq::filter);
    if s.len() > 0 {
        lemma_with_key_filter(s.drop_last(), k, has);
        assert(has(s.last()) <==> s.last().sort_key() == k);
    }
}

/// Sorting keeps every item, puts smaller keys first, and leaves items with one key in the order
/// in which they came.
pub proof fn law_sorting<T: Keyed>(
    v: Vec<T>,
    out: Vec<T>,
    key: Seq<char>,
    has_key: spec_fn(T) -> bool,
)
    requires
        call_ensures(sort_by_key::<T>, (v,), out),
        forall|e: T| #[trigger] has_key(e) <==> e.sort_key() == key,
    ensures
        out@.to_multiset() == v@.to_multiset(),
        forall|i: int, j: int|
            0 <= i < j < out@.len() ==> !key_lt(
                (#[trigger] out@[j]).sort_key(),
                (#[trigger] out@[i]).sort_key(),
            ),
        out@.filter(has_key) == v@.filter(has_key),
{
    lemma_stable_sort_permutes(v@, out@);
    assert forall|i: int, j: int| 0 <= i < j < out@.len() implies !key_lt(
        (#[trigger] out@[j]).sort_key(),
        (#[trigger] out@[i]).sort_key(),
    ) by {
        assert(key_le(out@[i].sort_key(), out@[j].sort_key()));
        if key_lt(out@[j].sort_key(), out@[i].sort_key()) {
            lemma_key_lt_asymmetric(out@[j].sort_key(), out@[i].sort_key());
            lemma_key_lt_irreflexive(out@[i].sort_key());
        }
    }
    assert(with_key(out@, key) == with_key(v@, key));
    lemma_with_key_filter(out@, key, has_key);
    lemma_with_key_filter(v@, key, has_key);
}

} // verus!
