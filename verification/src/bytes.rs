//! Where a needle stands in a text, by bytes and by characters.
use vstd::prelude::*;
use vstd::utf8::*;

use crate::text::{byte_pos, lemma_byte_len_is_encoded_len, lemma_byte_pos_prefix, occurs_at};

verus! {

/// The bytes of the needle stand in `h` at byte `b`.
pub open spec fn bytes_at(h: Seq<u8>, needle: Seq<u8>, b: int) -> bool {
    0 <= b && b + needle.len() <= h.len() && h.subrange(b, b + needle.len()) == needle
}

pub proof fn lemma_encode_concat(a: Seq<char>, b: Seq<char>)
    ensures
        encode_utf8(a + b) == encode_utf8(a) + encode_utf8(b),
    decreases a.len(),
{
    if a.len() == 0 {
        assert(a + b =~= b);
        assert(encode_utf8(a) =~= Seq::empty());
        assert(encode_utf8(a) + encode_utf8(b) =~= encode_utf8(b));
    } else {
        lemma_encode_concat(a.drop_first(), b);
        assert((a + b).drop_first() =~= a.drop_first() + b);
        assert((a + b)[0] == a[0]);
        assert(encode_utf8(a + b) =~= encode_utf8(a) + encode_utf8(b));
    }
}

/// A needle that stands at a position stands at its byte.
pub proof fn lemma_chars_to_bytes(h: Seq<char>, needle: Seq<char>, i: int)
    requires
        occurs_at(h, needle, i),
    ensures
        bytes_at(encode_utf8(h), encode_utf8(needle), byte_pos(h, i)),
{
    let a = h.subrange(0, i);
    let c = h.subrange(i + needle.len(), h.len() as int);
    assert(h =~= a + (needle + c));
    lemma_encode_concat(a, needle + c);
    lemma_encode_concat(needle, c);
    lemma_byte_len_is_encoded_len(a);
    lemma_byte_pos_prefix(h, a, i);
    let (x, y, z) = (encode_utf8(a), encode_utf8(needle), encode_utf8(c));
    assert(encode_utf8(h) == x + (y + z));
    assert((x + (y + z)).subrange(x.len() as int, (x.len() + y.len()) as int) =~= y);
}

proof fn lemma_same_first_scalar(a: Seq<u8>, b: Seq<u8>)
    requires
        valid_first_scalar(a),
        valid_first_scalar(b),
        a.len() <= b.len(),
        forall|k: int| 0 <= k < a.len() ==> a[k] == b[k],
    ensures
        decode_first_scalar(a) == decode_first_scalar(b),
        length_of_first_scalar(a) == length_of_first_scalar(b),
{
    assert(a[0] == b[0]);
}

proof fn lemma_prefix_decodes(n: Seq<char>, y: Seq<char>)
    requires
        encode_utf8(n).len() <= encode_utf8(y).len(),
        forall|k: int| 0 <= k < encode_utf8(n).len() ==> encode_utf8(n)[k] == encode_utf8(y)[k],
    ensures
        n.len() <= y.len(),
        forall|k: int| 0 <= k < n.len() ==> n[k] == y[k],
    decreases n.len(),
{
    if n.len() > 0 {
        let a = encode_utf8(n);
        let b = encode_utf8(y);
        encode_utf8_first_scalar(n);
        assert(a.len() > 0);
        if y.len() == 0 {
            assert(b.len() == 0);
        }
        encode_utf8_first_scalar(y);
        lemma_same_first_scalar(a, b);
        char_u32_cast(n[0], decode_first_scalar(a));
        char_u32_cast(y[0], decode_first_scalar(b));
        assert(n[0] == y[0]);
        let w = encode_scalar(n[0] as u32).len() as int;
        let (n1, y1) = (n.drop_first(), y.drop_first());
        assert(encode_utf8(n1) =~= a.subrange(w, a.len() as int));
        assert(encode_utf8(y1) =~= b.subrange(w, b.len() as int));
        assert forall|k: int| 0 <= k < encode_utf8(n1).len() implies encode_utf8(n1)[k]
            == encode_utf8(y1)[k] by {
            assert(a[k + w] == b[k + w]);
        }
        lemma_prefix_decodes(n1, y1);
        assert forall|k: int| 0 <= k < n.len() implies n[k] == y[k] by {
            if k > 0 {
                assert(n1[k - 1] == y1[k - 1]);
            }
        }
    }
}

/// A needle whose bytes stand at byte `b` stands at a position there: no
/// match begins inside a character.
pub proof fn lemma_bytes_to_chars(h: Seq<char>, needle: Seq<char>, b: int) -> (i: int)
    requires
        needle.len() > 0,
        bytes_at(encode_utf8(h), encode_utf8(needle), b),
    ensures
        occurs_at(h, needle, i),
        byte_pos(h, i) == b,
{
    let hb = encode_utf8(h);
    let nb = encode_utf8(needle);
    encode_utf8_valid_utf8(h);
    encode_utf8_valid_utf8(needle);
    encode_utf8_first_scalar(needle);
    assert(nb.len() > 0);
    is_char_boundary_iff_not_is_continuation_byte(nb, 0);
    assert(is_char_boundary(nb, 0));
    assert(hb.subrange(b, b + nb.len())[0] == hb[b]);
    is_char_boundary_iff_not_is_continuation_byte(hb, b);
    assert(is_char_boundary(hb, b));
    valid_utf8_split(hb, b);
    decode_utf8_split(hb, b);
    encode_utf8_decode_utf8(h);
    let left = hb.subrange(0, b);
    let right = hb.subrange(b, hb.len() as int);
    let x = decode_utf8(left);
    let y = decode_utf8(right);
    decode_utf8_encode_utf8(left);
    decode_utf8_encode_utf8(right);
    assert(h =~= x + y);
    let i = x.len() as int;
    lemma_byte_len_is_encoded_len(x);
    lemma_byte_pos_prefix(h, x, i);
    assert forall|k: int| 0 <= k < nb.len() implies nb[k] == right[k] by {
        assert(hb.subrange(b, b + nb.len())[k] == hb[b + k]);
    }
    lemma_prefix_decodes(needle, y);
    assert(h.subrange(i, i + needle.len()) =~= needle);
    i
}

} // verus!
