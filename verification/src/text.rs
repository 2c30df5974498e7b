//! Text as bytes: a string is modelled by its UTF-8 encoding.

use vstd::prelude::*;
use vstd::string::*;
use vstd::utf8::*;

verus! {

/// The byte of `0`.
pub const ZERO: u8 = 0x30;

/// The byte of `9`.
pub const NINE: u8 = 0x39;

/// The byte of `.`.
pub const DOT: u8 = 0x2e;

/// The byte of a tab.
pub const TAB: u8 = 0x09;

/// The byte of a newline.
pub const NEWLINE: u8 = 0x0a;

/// The byte of a carriage return.
pub const CARRIAGE_RETURN: u8 = 0x0d;

/// Byte-wise lexicographic order.
pub open spec fn lex_before(a: Seq<u8>, b: Seq<u8>) -> bool
    decreases a.len(),
{
    if b.len() == 0 {
        false
    } else if a.len() == 0 {
        true
    } else if a[0] == b[0] {
        lex_before(a.drop_first(), b.drop_first())
    } else {
        a[0] < b[0]
    }
}

/// Equal texts stand in no order, and of two others one comes first.
pub(crate) proof fn lemma_lex_total(a: Seq<u8>, b: Seq<u8>)
    ensures
        a == b ==> !lex_before(a, b),
        lex_before(a, b) ==> !lex_before(b, a),
        a != b ==> lex_before(a, b) || lex_before(b, a),
    decreases a.len(),
{
    if a.len() > 0 && b.len() > 0 {
        lemma_lex_total(a.drop_first(), b.drop_first());
        if a[0] == b[0] && a.drop_first() == b.drop_first() {
            assert(a =~= seq![a[0]] + a.drop_first());
            assert(b =~= seq![b[0]] + b.drop_first());
        }
    } else {
        assert(a.len() == 0 && b.len() == 0 ==> a =~= b);
    }
}

/// The order of texts is transitive.
pub(crate) proof fn lemma_lex_transitive(a: Seq<u8>, b: Seq<u8>, c: Seq<u8>)
    requires
        lex_before(a, b),
        lex_before(b, c),
    ensures
        lex_before(a, c),
    decreases a.len(),
{
    if a.len() > 0 && a[0] == b[0] && b[0] == c[0] {
        lemma_lex_transitive(a.drop_first(), b.drop_first(), c.drop_first());
    }
}

/// Whether `a` comes before `b`, byte by byte.
pub(crate) fn comes_before(a: &[u8], b: &[u8]) -> (r: bool)
    ensures
        r == lex_before(a@, b@),
{
    let mut i: usize = 0;
    assert(a@.skip(0) =~= a@ && b@.skip(0) =~= b@);
    while i < a.len() && i < b.len() && a[i] == b[i]
        invariant
            i <= a@.len(),
            i <= b@.len(),
            lex_before(a@, b@) == lex_before(a@.skip(i as int), b@.skip(i as int)),
        decreases a@.len() - i,
    {
        assert(a@.skip(i as int).drop_first() =~= a@.skip(i + 1));
        assert(b@.skip(i as int).drop_first() =~= b@.skip(i + 1));
        i = i + 1;
    }
    if i >= b.len() {
        false
    } else if i >= a.len() {
        true
    } else {
        a[i] < b[i]
    }
}

/// Encoding distributes over concatenation.
pub(crate) proof fn lemma_encode_concat(a: Seq<char>, b: Seq<char>)
    ensures
        encode_utf8(a + b) == encode_utf8(a) + encode_utf8(b),
    decreases a.len(),
{
    if a.len() == 0 {
        assert(a + b =~= b);
        assert(encode_utf8(a) + encode_utf8(b) =~= encode_utf8(b));
    } else {
        assert((a + b).drop_first() =~= a.drop_first() + b);
        lemma_encode_concat(a.drop_first(), b);
        assert((a + b)[0] == a[0]);
        assert(encode_utf8(a + b) =~= encode_utf8(a) + encode_utf8(b));
    }
}

/// Two texts with the same encoding are the same text.
pub(crate) proof fn lemma_encode_injective(a: Seq<char>, b: Seq<char>)
    requires
        encode_utf8(a) == encode_utf8(b),
    ensures
        a == b,
{
    encode_utf8_decode_utf8(a);
    encode_utf8_decode_utf8(b);
}

/// Right after an ASCII byte a character ends.
pub(crate) proof fn lemma_boundary_after_ascii(bytes: Seq<u8>, i: int)
    requires
        valid_utf8(bytes),
        0 <= i < bytes.len(),
        bytes[i] < 0x80,
    ensures
        is_char_boundary(bytes, i),
        is_char_boundary(bytes, i + 1),
    decreases bytes.len(),
{
    is_char_boundary_iff_not_is_continuation_byte(bytes, i);
    reveal_with_fuel(is_char_boundary, 2);
    if i > 0 {
        let n = length_of_first_scalar(bytes);
        assert(n <= i);
        lemma_boundary_after_ascii(pop_first_scalar(bytes), i - n);
    }
}

/// Putting ASCII bytes for ASCII bytes keeps an encoding valid.
pub(crate) proof fn lemma_ascii_swap(a: Seq<u8>, b: Seq<u8>)
    requires
        valid_utf8(a),
        a.len() == b.len(),
        forall|i: int|
            0 <= i < a.len() ==> #[trigger] a[i] == #[trigger] b[i] || (a[i] < 0x80 && b[i] < 0x80),
    ensures
        valid_utf8(b),
    decreases a.len(),
{
    if a.len() > 0 {
        let n = length_of_first_scalar(a);
        assert(a[0] == b[0] || (a[0] < 0x80 && b[0] < 0x80));
        if a[0] >= 0x80 {
            assert(n >= 2 && a[1] == b[1]);
            assert(n >= 3 ==> a[2] == b[2]);
            assert(n >= 4 ==> a[3] == b[3]);
        } else {
            let c = b[0];
            assert((c & 0x7F) <= 0x7F) by (bit_vector);
        }
        let x = pop_first_scalar(a);
        let y = pop_first_scalar(b);
        assert(valid_first_scalar(b));
        assert forall|i: int| 0 <= i < x.len() implies #[trigger] x[i] == #[trigger] y[i] || (x[i]
            < 0x80 && y[i] < 0x80) by {
            assert(x[i] == a[i + n] && y[i] == b[i + n]);
        }
        lemma_ascii_swap(x, y);
    }
}

/// ASCII bytes are an encoding.
pub(crate) proof fn lemma_ascii_valid(bytes: Seq<u8>)
    requires
        forall|i: int| 0 <= i < bytes.len() ==> #[trigger] bytes[i] < 0x80,
    ensures
        valid_utf8(bytes),
{
    let n = bytes.len() as int;
    assert forall|i: int| 0 <= i < n implies #[trigger] is_leading_byte_width_1(bytes[i]) by {
        let b = bytes[i];
        utf8_byte_ranges_bitwise(b);
    }
    assert(bytes.subrange(0, 0) =~= Seq::<u8>::empty());
    partial_valid_utf8_extend_ascii_block(bytes, 0, n);
    assert(bytes.subrange(0, n) =~= bytes);
}

/// The order of texts goes by the first byte in which they differ, and a text
/// comes before every longer one that begins with it.
pub proof fn lemma_order_goes_by_first_difference(a: Seq<u8>, b: Seq<u8>, k: int)
    requires
        0 <= k <= a.len(),
        k <= b.len(),
        a.subrange(0, k) == b.subrange(0, k),
        k == a.len() || k == b.len() || a[k] != b[k],
    ensures
        lex_before(a, b) <==> (k < b.len() && (k == a.len() || a[k] < b[k])),
    decreases k,
{
    if k > 0 {
        let x = a.drop_first();
        let y = b.drop_first();
        assert(a[0] == a.subrange(0, k)[0] && b[0] == b.subrange(0, k)[0]);
        assert(k < a.len() ==> x[k - 1] == a[k]);
        assert(k < b.len() ==> y[k - 1] == b[k]);
        assert(x.subrange(0, k - 1) =~= a.subrange(0, k).subrange(1, k));
        assert(y.subrange(0, k - 1) =~= b.subrange(0, k).subrange(1, k));
        lemma_order_goes_by_first_difference(x, y, k - 1);
    }
}

/// A character boundary stays one in every prefix that holds it.
pub(crate) proof fn lemma_boundary_in_prefix(bytes: Seq<u8>, i: int, end: int)
    requires
        valid_utf8(bytes),
        0 <= i <= end <= bytes.len(),
        is_char_boundary(bytes, i),
        is_char_boundary(bytes, end),
    ensures
        valid_utf8(bytes.subrange(0, end)),
        is_char_boundary(bytes.subrange(0, end), i),
{
    let head = bytes.subrange(0, end);
    valid_utf8_split(bytes, end);
    is_char_boundary_start_end_of_seq(head);
    if i < end {
        is_char_boundary_iff_not_is_continuation_byte(bytes, i);
        is_char_boundary_iff_not_is_continuation_byte(head, i);
    }
}

/// Appends `piece` to `out`.
pub(crate) fn push_str(out: &mut String, piece: &str)
    ensures
        final(out)@ == old(out)@ + piece@,
        encode_utf8(final(out)@) == encode_utf8(old(out)@) + encode_utf8(piece@),
{
    proof {
        lemma_encode_concat(out@, piece@);
    }
    out.append(piece);
}

/// The bytes `from..to` of `text`, both ends on character boundaries.
pub(crate) fn slice(text: &str, from: usize, to: usize) -> (r: &str)
    requires
        from <= to <= encode_utf8(text@).len(),
        is_char_boundary(encode_utf8(text@), from as int),
        is_char_boundary(encode_utf8(text@), to as int),
    ensures
        encode_utf8(r@) == encode_utf8(text@).subrange(from as int, to as int),
{
    let ghost bytes = encode_utf8(text@);
    proof {
        encode_utf8_valid_utf8(text@);
        lemma_boundary_in_prefix(bytes, from as int, to as int);
    }
    let (head, _tail) = text.split_at(to);
    let (_skipped, r) = head.split_at(from);
    assert(encode_utf8(r@) =~= bytes.subrange(from as int, to as int));
    r
}

} // verus!
