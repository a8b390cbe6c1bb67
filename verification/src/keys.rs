//! Object keys: their canonical order, the escaping of keys made of `#` only,
//! and member lists kept sorted by key.

use vstd::prelude::*;
use vstd::string::*;
use vstd::utf8::*;

verus! {

/// `a` and `b` hold the same bytes at every position below `n`.
pub open spec fn agree(a: Seq<u8>, b: Seq<u8>, n: int) -> bool {
    forall|j: int| 0 <= j < n ==> a[j] == b[j]
}

/// Strict lexicographic order on byte strings: `a` is a proper prefix of `b`,
/// or at the first position where they differ `a` holds the smaller byte.
pub open spec fn bytes_lt(a: Seq<u8>, b: Seq<u8>) -> bool {
    exists|i: int|
        0 <= i <= a.len() && i < b.len() && #[trigger] agree(a, b, i) && (i == a.len() || a[i]
            < b[i])
}

/// The order in which an object's members are kept: keys compare as their
/// UTF-8 encodings do, byte by byte.
pub open spec fn key_lt(a: Seq<char>, b: Seq<char>) -> bool {
    bytes_lt(encode_utf8(a), encode_utf8(b))
}

/// The first position at or after `i` where `a` and `b` differ or one of them ends.
spec fn mismatch(a: Seq<u8>, b: Seq<u8>, i: int) -> int
    decreases a.len() - i,
{
    if 0 <= i < a.len() && i < b.len() && a[i] == b[i] {
        mismatch(a, b, i + 1)
    } else {
        i
    }
}

proof fn lemma_mismatch(a: Seq<u8>, b: Seq<u8>, i: int)
    requires
        0 <= i <= a.len(),
        i <= b.len(),
        agree(a, b, i),
    ensures
        i <= mismatch(a, b, i) <= a.len(),
        mismatch(a, b, i) <= b.len(),
        agree(a, b, mismatch(a, b, i)),
        mismatch(a, b, i) == a.len() || mismatch(a, b, i) == b.len() || a[mismatch(a, b, i)]
            != b[mismatch(a, b, i)],
    decreases a.len() - i,
{
    if i < a.len() && i < b.len() && a[i] == b[i] {
        lemma_mismatch(a, b, i + 1);
    }
}

/// The order on byte strings is transitive.
pub proof fn lemma_bytes_lt_transitive(a: Seq<u8>, b: Seq<u8>, c: Seq<u8>)
    requires
        bytes_lt(a, b),
        bytes_lt(b, c),
    ensures
        bytes_lt(a, c),
{
    let i = choose|i: int|
        0 <= i <= a.len() && i < b.len() && #[trigger] agree(a, b, i) && (i == a.len() || a[i]
            < b[i]);
    let j = choose|j: int|
        0 <= j <= b.len() && j < c.len() && #[trigger] agree(b, c, j) && (j == b.len() || b[j]
            < c[j]);
    let k = if i <= j {
        i
    } else {
        j
    };
    assert(agree(a, c, k));
}

/// Of two byte strings, one comes first or they are the same.
pub proof fn lemma_bytes_lt_total(a: Seq<u8>, b: Seq<u8>)
    ensures
        a == b || bytes_lt(a, b) || bytes_lt(b, a),
{
    let m = mismatch(a, b, 0);
    lemma_mismatch(a, b, 0);
    if m == a.len() && m == b.len() {
        assert(a =~= b);
    } else if m == a.len() {
        assert(agree(a, b, m));
    } else if m == b.len() {
        assert(agree(b, a, m));
    } else if a[m] < b[m] {
        assert(agree(a, b, m));
    } else {
        assert(agree(b, a, m));
    }
}

/// No key comes before itself.
pub proof fn lemma_key_lt_irreflexive(a: Seq<char>)
    ensures
        !key_lt(a, a),
{
}

/// The key order is transitive.
pub proof fn lemma_key_lt_transitive(a: Seq<char>, b: Seq<char>, c: Seq<char>)
    requires
        key_lt(a, b),
        key_lt(b, c),
    ensures
        key_lt(a, c),
{
    lemma_bytes_lt_transitive(encode_utf8(a), encode_utf8(b), encode_utf8(c));
}

/// Of two keys, one comes first or they are the same key.
pub proof fn lemma_key_lt_total(a: Seq<char>, b: Seq<char>)
    ensures
        a == b || key_lt(a, b) || key_lt(b, a),
{
    lemma_bytes_lt_total(encode_utf8(a), encode_utf8(b));
    if encode_utf8(a) == encode_utf8(b) {
        encode_utf8_decode_utf8(a);
        encode_utf8_decode_utf8(b);
    }
}

/// No two keys come each before the other.
pub proof fn lemma_key_lt_asymmetric(a: Seq<char>, b: Seq<char>)
    requires
        key_lt(a, b),
    ensures
        !key_lt(b, a),
{
    if key_lt(b, a) {
        lemma_key_lt_transitive(a, b, a);
    }
}

/// Whether `a` comes before `b` in the key order.
pub fn key_less(a: &str, b: &str) -> (r: bool)
    ensures
        r == key_lt(a@, b@),
{
    let x = a.as_bytes();
    let y = b.as_bytes();
    let mut i: usize = 0;
    while i < x.len() && i < y.len() && x[i] == y[i]
        invariant
            i <= x@.len(),
            i <= y@.len(),
            agree(x@, y@, i as int),
        decreases x@.len() - i,
    {
        i += 1;
    }
    let r = i < y.len() && (i == x.len() || x[i] < y[i]);
    proof {
        if r {
            assert(agree(x@, y@, i as int));
        } else if bytes_lt(x@, y@) {
            let w = choose|w: int|
                0 <= w <= x@.len() && w < y@.len() && #[trigger] agree(x@, y@, w) && (w
                    == x@.len() || x@[w] < y@[w]);
            if w < i {
                assert(x@[w] == y@[w]);
            } else if w > i {
                assert(x@[i as int] == y@[i as int]);
            }
        }
    }
    r
}

/// Whether `a` and `b` are the same key.
pub fn key_equal(a: &str, b: &str) -> (r: bool)
    ensures
        r == (a@ == b@),
{
    proof {
        lemma_key_lt_total(a@, b@);
        lemma_key_lt_irreflexive(a@);
    }
    !key_less(a, b) && !key_less(b, a)
}

/// The one-character key `#` that marks a reference id.
pub open spec fn marker_key() -> Seq<char> {
    seq!['#']
}

/// A key that is escaped on encoding: one or more `#` and nothing else.
pub open spec fn is_escape(k: Seq<char>) -> bool {
    k.len() > 0 && forall|i: int| 0 <= i < k.len() ==> k[i] == '#'
}

/// The key as it is written in an encoded document: a key of `#` only gets one more.
pub open spec fn escaped(k: Seq<char>) -> Seq<char> {
    if is_escape(k) {
        marker_key() + k
    } else {
        k
    }
}

/// The key that an encoded key stands for: a key of `#` only loses one.
pub open spec fn unescaped(k: Seq<char>) -> Seq<char> {
    if is_escape(k) {
        k.drop_first()
    } else {
        k
    }
}

/// Decoding an encoded key gives the key back, whatever the key; an encoded
/// key is never the marker key, and distinct keys stay distinct.
pub proof fn lemma_escape_inverse(k: Seq<char>)
    ensures
        unescaped(escaped(k)) == k,
        escaped(k) != marker_key(),
        is_escape(escaped(k)) == is_escape(k),
{
    if is_escape(k) {
        let e = marker_key() + k;
        assert(is_escape(e));
        assert(e.drop_first() =~= k);
        assert(e.len() >= 2);
    } else {
        if k == marker_key() {
            assert(is_escape(k));
        }
    }
}

/// Encoding is one-to-one on keys.
pub proof fn lemma_escape_injective(a: Seq<char>, b: Seq<char>)
    requires
        escaped(a) == escaped(b),
    ensures
        a == b,
{
    lemma_escape_inverse(a);
    lemma_escape_inverse(b);
}

/// Whether a key is made of one or more `#` and nothing else.
pub fn is_escape_key(k: &str) -> (r: bool)
    ensures
        r == is_escape(k@),
{
    if !k.is_ascii() {
        proof {
            if is_escape(k@) {
                assert forall|i: int| 0 <= i < k@.len() implies '\0' <= #[trigger] k@[i]
                    <= '\u{7f}' by {}
            }
        }
        return false;
    }
    let n = k.unicode_len();
    if n == 0 {
        return false;
    }
    let mut i: usize = 0;
    while i < n
        invariant
            n == k@.len(),
            i <= n,
            is_ascii_chars(k@),
            forall|j: int| 0 <= j < i ==> k@[j] == '#',
        decreases n - i,
    {
        let b = k.get_ascii(i);
        if b != 35u8 {
            proof {
                assert('\0' <= k@[i as int] <= '\u{7f}');
            }
            return false;
        }
        proof {
            assert('\0' <= k@[i as int] <= '\u{7f}');
            assert(k@[i as int] == '#');
        }
        i += 1;
    }
    true
}

/// The key as it is written in an encoded document.
pub fn escape_key(k: &str) -> (r: String)
    ensures
        r@ == escaped(k@),
{
    if is_escape_key(k) {
        proof {
            reveal_strlit("#");
            assert("#"@ =~= marker_key());
        }
        String::from_str("#").concat(k)
    } else {
        String::from_str(k)
    }
}

/// The key that an encoded key stands for.
pub fn unescape_key(k: &str) -> (r: String)
    ensures
        r@ == unescaped(k@),
{
    if is_escape_key(k) {
        proof {
            assert forall|i: int| 0 <= i < k@.len() implies '\0' <= #[trigger] k@[i]
                <= '\u{7f}' by {}
        }
        let n = k.unicode_len();
        let rest = k.substring_ascii(1, n);
        proof {
            assert(rest@ =~= k@.drop_first());
        }
        String::from_str(rest)
    } else {
        String::from_str(k)
    }
}

/// Whether a key is the marker key.
pub fn is_marker_key(k: &str) -> (r: bool)
    ensures
        r == (k@ == marker_key()),
{
    if !is_escape_key(k) {
        proof {
            if k@ == marker_key() {
                assert(is_escape(k@));
            }
        }
        return false;
    }
    let n = k.unicode_len();
    proof {
        if n == 1 {
            assert(k@ =~= marker_key());
        }
    }
    n == 1
}

/// A member list in canonical order: keys strictly ascending, so none occurs twice.
pub open spec fn sorted<V>(es: Seq<(Seq<char>, V)>) -> bool {
    forall|i: int, j: int| 0 <= i < j < es.len() ==> key_lt(#[trigger] es[i].0, #[trigger] es[j].0)
}

/// The first position at or after `i` whose key does not come before `key`.
pub open spec fn rank<V>(es: Seq<(Seq<char>, V)>, key: Seq<char>, i: int) -> int
    decreases es.len() - i,
{
    if 0 <= i < es.len() && key_lt(es[i].0, key) {
        rank(es, key, i + 1)
    } else {
        i
    }
}

/// The member list after `key` is set to `v`: the member of that key is
/// replaced where the list holds one at the key's place, else the new member
/// goes in at its place in the order.
pub open spec fn put<V>(es: Seq<(Seq<char>, V)>, key: Seq<char>, v: V) -> Seq<(Seq<char>, V)> {
    let i = rank(es, key, 0);
    if 0 <= i < es.len() && es[i].0 == key {
        es.update(i, (key, v))
    } else if 0 <= i <= es.len() {
        es.insert(i, (key, v))
    } else {
        es
    }
}

/// Where `rank` stops: all members before it come before `key`, and the
/// member there, if any, does not.
pub proof fn lemma_rank<V>(es: Seq<(Seq<char>, V)>, key: Seq<char>, i: int)
    requires
        0 <= i <= es.len(),
    ensures
        i <= rank(es, key, i) <= es.len(),
        forall|j: int| i <= j < rank(es, key, i) ==> key_lt(#[trigger] es[j].0, key),
        rank(es, key, i) < es.len() ==> !key_lt(es[rank(es, key, i)].0, key),
    decreases es.len() - i,
{
    if i < es.len() && key_lt(es[i].0, key) {
        lemma_rank(es, key, i + 1);
    }
}

/// Setting a member keeps a canonical list canonical.
pub proof fn lemma_put_sorted<V>(es: Seq<(Seq<char>, V)>, key: Seq<char>, v: V)
    requires
        sorted(es),
    ensures
        sorted(put(es, key, v)),
{
    let r = rank(es, key, 0);
    lemma_rank(es, key, 0);
    let out = put(es, key, v);
    if r < es.len() && es[r].0 == key {
        assert forall|i: int, j: int| 0 <= i < j < out.len() implies key_lt(
            #[trigger] out[i].0,
            #[trigger] out[j].0,
        ) by {
            assert(out[i].0 == es[i].0);
            assert(out[j].0 == es[j].0);
        }
    } else {
        assert forall|i: int, j: int| 0 <= i < j < out.len() implies key_lt(
            #[trigger] out[i].0,
            #[trigger] out[j].0,
        ) by {
            if j < r {
                assert(out[i] == es[i] && out[j] == es[j]);
            } else if j == r {
                assert(out[i] == es[i]);
            } else if i < r {
                assert(out[i] == es[i] && out[j] == es[j - 1]);
            } else if i == r {
                assert(out[j] == es[j - 1]);
                lemma_key_lt_total(es[r].0, key);
                if r < j - 1 {
                    lemma_key_lt_transitive(key, es[r].0, es[j - 1].0);
                }
            } else {
                assert(out[i] == es[i - 1] && out[j] == es[j - 1]);
            }
        }
    }
}

} // verus!
