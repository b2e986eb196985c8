//! Text as S3 sees it: strings are sequences of characters, ordered by the bytes of their
//! UTF-8 form.

use vstd::prelude::*;
use vstd::utf8::{
    char_u32_cast, decode_first_scalar, encode_utf8, encode_utf8_decode_utf8,
    encode_utf8_first_scalar, length_of_first_scalar,
};

verus! {

// ---------------------------------------------------------------------------------------
// Byte order
// ---------------------------------------------------------------------------------------

/// `a` and `b` agree before position `i`, and at `i` either `a` has ended or its byte is
/// the smaller one.
pub open spec fn precedes_at(a: Seq<u8>, b: Seq<u8>, i: int) -> bool {
    &&& 0 <= i <= a.len()
    &&& i < b.len()
    &&& forall|j: int| 0 <= j < i ==> a[j] == b[j]
    &&& i == a.len() || a[i] < b[i]
}

/// Strict lexicographic order on byte strings.
pub open spec fn bytes_lt(a: Seq<u8>, b: Seq<u8>) -> bool {
    exists|i: int| precedes_at(a, b, i)
}

/// Strict order on keys and paths: the lexicographic order of their UTF-8 bytes.
#[verifier::opaque]
pub open spec fn key_lt(a: Seq<char>, b: Seq<char>) -> bool {
    bytes_lt(encode_utf8(a), encode_utf8(b))
}

/// `a` is `b` or sorts before it.
pub open spec fn key_le(a: Seq<char>, b: Seq<char>) -> bool {
    a == b || key_lt(a, b)
}

/// Byte order is irreflexive.
pub proof fn lemma_bytes_lt_irreflexive(a: Seq<u8>)
    ensures
        !bytes_lt(a, a),
{
}

/// Byte order is transitive.
pub proof fn lemma_bytes_lt_transitive(a: Seq<u8>, b: Seq<u8>, c: Seq<u8>)
    requires
        bytes_lt(a, b),
        bytes_lt(b, c),
    ensures
        bytes_lt(a, c),
{
    let i = choose|i: int| precedes_at(a, b, i);
    let j = choose|j: int| precedes_at(b, c, j);
    let k = if i <= j {
        i
    } else {
        j
    };
    assert(precedes_at(a, c, k));
}

proof fn lemma_bytes_lt_total_from(a: Seq<u8>, b: Seq<u8>, i: int)
    requires
        0 <= i <= a.len(),
        i <= b.len(),
        forall|j: int| 0 <= j < i ==> a[j] == b[j],
    ensures
        a == b || bytes_lt(a, b) || bytes_lt(b, a),
    decreases a.len() - i,
{
    if i == a.len() {
        if i == b.len() {
            assert(a =~= b);
        } else {
            assert(precedes_at(a, b, i));
        }
    } else if i == b.len() {
        assert(precedes_at(b, a, i));
    } else if a[i] < b[i] {
        assert(precedes_at(a, b, i));
    } else if b[i] < a[i] {
        assert(precedes_at(b, a, i));
    } else {
        lemma_bytes_lt_total_from(a, b, i + 1);
    }
}

/// Any two distinct byte strings are ordered one way or the other.
pub proof fn lemma_bytes_lt_total(a: Seq<u8>, b: Seq<u8>)
    ensures
        a == b || bytes_lt(a, b) || bytes_lt(b, a),
{
    lemma_bytes_lt_total_from(a, b, 0);
}

/// A common prefix does not affect the order.
pub proof fn lemma_bytes_lt_common_prefix(p: Seq<u8>, a: Seq<u8>, b: Seq<u8>)
    ensures
        bytes_lt(p + a, p + b) <==> bytes_lt(a, b),
{
    if bytes_lt(a, b) {
        let i = choose|i: int| precedes_at(a, b, i);
        assert(precedes_at(p + a, p + b, i + p.len()));
    }
    if bytes_lt(p + a, p + b) {
        let i = choose|i: int| precedes_at(p + a, p + b, i);
        if i < p.len() {
            assert((p + a)[i] == (p + b)[i]);
        }
        let k = i - p.len();
        assert forall|j: int| 0 <= j < k implies a[j] == b[j] by {
            assert((p + a)[j + p.len()] == (p + b)[j + p.len()]);
        }
        assert(precedes_at(a, b, k));
    }
}

/// UTF-8 encoding distributes over concatenation.
pub proof fn lemma_encode_concat(a: Seq<char>, b: Seq<char>)
    ensures
        encode_utf8(a + b) == encode_utf8(a) + encode_utf8(b),
    decreases a.len(),
{
    if a.len() == 0 {
        assert(a + b =~= b);
        assert(encode_utf8(a) =~= Seq::<u8>::empty());
        assert(encode_utf8(a) + encode_utf8(b) =~= encode_utf8(b));
    } else {
        assert((a + b).drop_first() =~= a.drop_first() + b);
        lemma_encode_concat(a.drop_first(), b);
        assert(encode_utf8(a + b) =~= encode_utf8(a) + encode_utf8(b));
    }
}

/// Strings with the same UTF-8 bytes are the same string.
pub proof fn lemma_encode_injective(a: Seq<char>, b: Seq<char>)
    requires
        encode_utf8(a) == encode_utf8(b),
    ensures
        a == b,
{
    encode_utf8_decode_utf8(a);
    encode_utf8_decode_utf8(b);
}

/// A non-empty string has at least one byte.
pub proof fn lemma_encode_nonempty(a: Seq<char>)
    requires
        a.len() > 0,
    ensures
        encode_utf8(a).len() > 0,
{
    encode_utf8_decode_utf8(a);
    if encode_utf8(a).len() == 0 {
        assert(encode_utf8(a) =~= encode_utf8(Seq::<char>::empty()));
        lemma_encode_injective(a, Seq::<char>::empty());
    }
}

/// Key order is irreflexive.
pub proof fn lemma_key_lt_irreflexive(a: Seq<char>)
    ensures
        !key_lt(a, a),
{
    reveal(key_lt);
}

/// Key order is transitive.
pub proof fn lemma_key_lt_transitive(a: Seq<char>, b: Seq<char>, c: Seq<char>)
    requires
        key_lt(a, b),
        key_lt(b, c),
    ensures
        key_lt(a, c),
{
    reveal(key_lt);
    lemma_bytes_lt_transitive(encode_utf8(a), encode_utf8(b), encode_utf8(c));
}

/// Key order is antisymmetric.
pub proof fn lemma_key_lt_asymmetric(a: Seq<char>, b: Seq<char>)
    requires
        key_lt(a, b),
    ensures
        !key_lt(b, a),
        a != b,
{
    if key_lt(b, a) {
        lemma_key_lt_transitive(a, b, a);
    }
    lemma_key_lt_irreflexive(a);
}

/// Any two distinct keys are ordered one way or the other.
pub proof fn lemma_key_lt_total(a: Seq<char>, b: Seq<char>)
    ensures
        a == b || key_lt(a, b) || key_lt(b, a),
{
    reveal(key_lt);
    lemma_bytes_lt_total(encode_utf8(a), encode_utf8(b));
    if encode_utf8(a) == encode_utf8(b) {
        lemma_encode_injective(a, b);
    }
}

/// The order with equality is transitive.
pub proof fn lemma_key_le_transitive(a: Seq<char>, b: Seq<char>, c: Seq<char>)
    requires
        key_le(a, b),
        key_le(b, c),
    ensures
        key_le(a, c),
{
    if a != b && b != c {
        lemma_key_lt_transitive(a, b, c);
    }
}

/// A string sorts before each of its proper extensions.
pub proof fn lemma_key_lt_extension(a: Seq<char>, x: Seq<char>)
    requires
        x.len() > 0,
    ensures
        key_lt(a, a + x),
{
    reveal(key_lt);
    lemma_encode_concat(a, x);
    lemma_encode_nonempty(x);
    assert(precedes_at(encode_utf8(a), encode_utf8(a + x), encode_utf8(a).len() as int));
}

/// A common prefix does not affect the order of two keys.
pub proof fn lemma_key_lt_common_prefix(p: Seq<char>, a: Seq<char>, b: Seq<char>)
    ensures
        key_lt(p + a, p + b) <==> key_lt(a, b),
{
    reveal(key_lt);
    lemma_encode_concat(p, a);
    lemma_encode_concat(p, b);
    lemma_bytes_lt_common_prefix(encode_utf8(p), encode_utf8(a), encode_utf8(b));
}

/// UTF-8 is prefix-free: a string whose bytes begin those of another begins it.
pub proof fn lemma_encode_prefix(p: Seq<char>, a: Seq<char>)
    requires
        encode_utf8(p).is_prefix_of(encode_utf8(a)),
    ensures
        p.is_prefix_of(a),
    decreases p.len(),
{
    let x = encode_utf8(p);
    let y = encode_utf8(a);
    if p.len() == 0 {
        assert(a.subrange(0, 0) =~= p);
    } else {
        lemma_encode_nonempty(p);
        assert(a.len() > 0);
        encode_utf8_first_scalar(p);
        encode_utf8_first_scalar(a);
        assert forall|i: int| 0 <= i < x.len() implies x[i] == y[i] by {
            assert(y.subrange(0, x.len() as int)[i] == y[i]);
        }
        let v = decode_first_scalar(x);
        assert(v == decode_first_scalar(y));
        char_u32_cast(p[0], v);
        char_u32_cast(a[0], v);
        let n = length_of_first_scalar(x);
        let x2 = encode_utf8(p.drop_first());
        let y2 = encode_utf8(a.drop_first());
        assert(x2 =~= y2.subrange(0, x2.len() as int)) by {
            assert forall|i: int| 0 <= i < x2.len() implies x2[i] == y2[i] by {
                assert(x2[i] == x[i + n]);
                assert(y2[i] == y[i + n]);
            }
        }
        lemma_encode_prefix(p.drop_first(), a.drop_first());
        assert(p =~= a.subrange(0, p.len() as int)) by {
            assert forall|i: int| 0 <= i < p.len() implies p[i] == a[i] by {
                if i > 0 {
                    let t = a.drop_first();
                    assert(p.drop_first()[i - 1] == t.subrange(0, p.len() - 1)[i - 1]);
                }
            }
        }
    }
}

/// Two strings, neither of which begins with the other, compare like all their extensions.
pub proof fn lemma_key_lt_decided(a: Seq<char>, x: Seq<char>, b: Seq<char>)
    requires
        key_lt(a, b),
        !a.is_prefix_of(b),
    ensures
        key_lt(a + x, b),
{
    reveal(key_lt);
    let p = encode_utf8(a);
    let q = encode_utf8(b);
    let i = choose|i: int| precedes_at(p, q, i);
    lemma_encode_concat(a, x);
    if i == p.len() {
        assert(p =~= q.subrange(0, i));
        lemma_encode_prefix(a, b);
    }
    assert(precedes_at(encode_utf8(a + x), q, i));
}

/// Whether `a` sorts strictly before `b` in UTF-8 byte order.
pub fn key_less(a: &str, b: &str) -> (r: bool)
    ensures
        r == key_lt(a@, b@),
{
    let x = a.as_bytes();
    let y = b.as_bytes();
    let mut i: usize = 0;
    while i < x.len() && i < y.len()
        invariant
            x@ == encode_utf8(a@),
            y@ == encode_utf8(b@),
            i <= x.len(),
            i <= y.len(),
            forall|j: int| 0 <= j < i ==> x@[j] == y@[j],
        decreases x.len() - i,
    {
        proof {
            reveal(key_lt);
        }
        if x[i] < y[i] {
            assert(precedes_at(x@, y@, i as int));
            return true;
        }
        if y[i] < x[i] {
            proof {
                assert(precedes_at(y@, x@, i as int));
                lemma_key_lt_asymmetric(b@, a@);
            }
            return false;
        }
        i += 1;
    }
    proof {
        reveal(key_lt);
        if i < y.len() {
            assert(precedes_at(x@, y@, i as int));
        } else if i < x.len() {
            assert(precedes_at(y@, x@, i as int));
            lemma_key_lt_asymmetric(b@, a@);
        } else {
            assert(x@ =~= y@);
            lemma_bytes_lt_irreflexive(x@);
        }
    }
    i < y.len()
}

// ---------------------------------------------------------------------------------------
// Reading strings
// ---------------------------------------------------------------------------------------

/// The characters of `s`, in order.
pub fn to_chars(s: &str) -> (v: Vec<char>)
    ensures
        v@ == s@,
{
    let mut v: Vec<char> = Vec::new();
    for c in it: s.chars()
        invariant
            it.seq() == s@,
            v@ == s@.take(it.index() as int),
    {
        v.push(c);
    }
    assert(s@.take(s@.len() as int) =~= s@);
    v
}

/// Whether `s` begins with `p`.
pub fn starts_with(s: &str, p: &str) -> (r: bool)
    ensures
        r == p@.is_prefix_of(s@),
{
    let a = to_chars(s);
    let b = to_chars(p);
    if b.len() > a.len() {
        return false;
    }
    let mut i: usize = 0;
    while i < b.len()
        invariant
            a@ == s@,
            b@ == p@,
            i <= b.len() <= a.len(),
            forall|j: int| 0 <= j < i ==> a@[j] == b@[j],
        decreases b.len() - i,
    {
        if a[i] != b[i] {
            assert(p@[i as int] != s@.subrange(0, p@.len() as int)[i as int]);
            return false;
        }
        i += 1;
    }
    assert(p@ =~= s@.subrange(0, p@.len() as int));
    true
}

/// Whether `s` ends with `p`.
pub fn ends_with(s: &str, p: &str) -> (r: bool)
    ensures
        r == p@.is_suffix_of(s@),
{
    let a = to_chars(s);
    let b = to_chars(p);
    if b.len() > a.len() {
        return false;
    }
    let from: usize = a.len() - b.len();
    let ghost tail = s@.subrange(from as int, s@.len() as int);
    let mut i: usize = 0;
    while i < b.len()
        invariant
            a@ == s@,
            b@ == p@,
            i <= b.len() <= a.len(),
            from == a.len() - b.len(),
            tail == s@.subrange(from as int, s@.len() as int),
            forall|j: int| 0 <= j < i ==> a@[from + j] == b@[j],
        decreases b.len() - i,
    {
        if a[from + i] != b[i] {
            assert(p@[i as int] != tail[i as int]);
            return false;
        }
        i += 1;
    }
    assert(p@ =~= tail);
    true
}

/// Whether `a` and `b` are the same text.
pub fn same_text(a: &str, b: &str) -> (r: bool)
    ensures
        r == (a@ == b@),
{
    let x = to_chars(a);
    let y = to_chars(b);
    if x.len() != y.len() {
        return false;
    }
    let mut i: usize = 0;
    while i < x.len()
        invariant
            x@ == a@,
            y@ == b@,
            i <= x.len() == y.len(),
            forall|j: int| 0 <= j < i ==> x@[j] == y@[j],
        decreases x.len() - i,
    {
        if x[i] != y[i] {
            return false;
        }
        i += 1;
    }
    assert(a@ =~= b@);
    true
}

// ---------------------------------------------------------------------------------------
// Laws
// ---------------------------------------------------------------------------------------

/// Keys sort by the bytes of their UTF-8 form: at the first byte in which two keys differ the
/// smaller byte comes first, and a key comes before whatever it begins.
pub proof fn law_keys_sort_by_bytes(a: &str, b: &str, less: bool, i: int)
    requires
        call_ensures(key_less, (a, b), less),
        0 <= i <= encode_utf8(a@).len(),
        i <= encode_utf8(b@).len(),
        forall|j: int| 0 <= j < i ==> encode_utf8(a@)[j] == encode_utf8(b@)[j],
    ensures
        i < encode_utf8(a@).len() && i < encode_utf8(b@).len() && encode_utf8(a@)[i]
            < encode_utf8(b@)[i] ==> less,
        i < encode_utf8(a@).len() && i < encode_utf8(b@).len() && encode_utf8(a@)[i]
            > encode_utf8(b@)[i] ==> !less,
        i == encode_utf8(a@).len() && i < encode_utf8(b@).len() ==> less,
        i == encode_utf8(b@).len() ==> !less,
{
    reveal(key_lt);
    let x = encode_utf8(a@);
    let y = encode_utf8(b@);
    if i < y.len() && (i == x.len() || x[i] < y[i]) {
        assert(precedes_at(x, y, i));
    } else if i == y.len() || x[i] > y[i] {
        if bytes_lt(x, y) {
            let k = choose|k: int| precedes_at(x, y, k);
            if k < i {
                assert(x[k] == y[k]);
            }
        }
    }
}

/// Of two different keys one comes first, and never both.
pub proof fn law_keys_are_ordered(a: &str, b: &str, less: bool, greater: bool, same: bool)
    requires
        call_ensures(key_less, (a, b), less),
        call_ensures(key_less, (b, a), greater),
        call_ensures(same_text, (a, b), same),
    ensures
        same <==> a@ == b@,
        same ==> !less && !greater,
        !same ==> less != greater,
{
    lemma_key_lt_irreflexive(a@);
    lemma_key_lt_total(a@, b@);
    if key_lt(a@, b@) {
        lemma_key_lt_asymmetric(a@, b@);
    }
}

/// A text begins with another if it is that and then something, and ends in it if it is something
/// and then that.
pub proof fn law_text_ends(
    s: &str,
    p: &str,
    begins: bool,
    ends: bool,
    rest: Seq<char>,
    chars: Vec<char>,
)
    requires
        call_ensures(starts_with, (s, p), begins),
        call_ensures(ends_with, (s, p), ends),
        call_ensures(to_chars, (s,), chars),
    ensures
        s@ == p@ + rest ==> begins,
        s@ == rest + p@ ==> ends,
        begins ==> s@ == p@ + s@.skip(p@.len() as int),
        ends ==> s@ == s@.take(s@.len() - p@.len()) + p@,
        chars@ == s@,
{
    if s@ == p@ + rest {
        assert(s@.take(p@.len() as int) =~= p@);
    }
    if s@ == rest + p@ {
        assert(s@.subrange(s@.len() - p@.len(), s@.len() as int) =~= p@);
    }
    if begins {
        assert(s@ =~= p@ + s@.skip(p@.len() as int));
    }
    if ends {
        assert(s@ =~= s@.take(s@.len() - p@.len()) + p@);
    }
}

} // verus!
