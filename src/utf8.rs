//! UTF-8 framing: the width that a leading byte announces, the continuation
//! byte pattern, and the split of a byte run into complete sequences.
use vstd::prelude::*;
use vstd::utf8::*;

verus! {

/// The width that a leading byte announces: 1 to 4, or 0 for a byte that cannot lead.
pub open spec fn lead_width(b: u8) -> nat {
    if is_leading_byte_width_1(b) {
        1
    } else if is_leading_byte_width_2(b) {
        2
    } else if is_leading_byte_width_3(b) {
        3
    } else if is_leading_byte_width_4(b) {
        4
    } else {
        0
    }
}

/// `s` splits into complete sequences, each a leading byte followed by as many
/// continuation bytes as it announces. Valid UTF-8 is framed; framed bytes may
/// still encode overlong forms or surrogates.
pub open spec fn framed(s: Seq<u8>) -> bool
    decreases s.len(),
{
    if s.len() == 0 {
        true
    } else if valid_leading_and_continuation_bytes_first_codepoint(s) {
        framed(s.subrange(length_of_first_codepoint(s), s.len() as int))
    } else {
        false
    }
}

/// The width in bytes that the leading byte `first` announces; 0 when it cannot lead.
pub fn utf8_len(first: u8) -> (r: usize)
    ensures
        r == lead_width(first),
{
    if first & 0x80 == 0 {
        assert(first & 0x80 == 0 ==> first <= 0x7f) by (bit_vector);
        return 1;
    }
    if first & 0xe0 == 0xc0 {
        assert(first & 0x80 != 0 && first & 0xe0 == 0xc0 ==> 0xc0 <= first <= 0xdf) by (bit_vector);
        return 2;
    }
    if first & 0xf0 == 0xe0 {
        assert(first & 0x80 != 0 && first & 0xe0 != 0xc0 && first & 0xf0 == 0xe0 ==> 0xe0 <= first
            <= 0xef) by (bit_vector);
        return 3;
    }
    if first & 0xf8 == 0xf0 {
        assert(first & 0x80 != 0 && first & 0xe0 != 0xc0 && first & 0xf0 != 0xe0 && first & 0xf8
            == 0xf0 ==> 0xf0 <= first <= 0xf7) by (bit_vector);
        return 4;
    }
    assert(first & 0x80 != 0 && first & 0xe0 != 0xc0 && first & 0xf0 != 0xe0 && first & 0xf8
        != 0xf0 ==> (0x80 <= first <= 0xbf || 0xf8 <= first)) by (bit_vector);
    0
}

/// Whether `cont` has the continuation pattern `10xxxxxx`.
pub fn utf8_cont_assert(cont: u8) -> (r: bool)
    ensures
        r == is_continuation_byte(cont),
{
    assert(cont & 0xc0 == 0x80 <==> 0x80 <= cont <= 0xbf) by (bit_vector);
    cont & 0xc0 == 0x80
}

/// The width of the sequence that starts at `bytes[at]` when it is complete and well
/// formed inside `bytes[at..end]`.
pub fn next_utf8(bytes: &[u8], at: usize, end: usize) -> (r: Option<usize>)
    requires
        at < end <= bytes@.len(),
    ensures
        match r {
            Some(w) => {
                &&& valid_leading_and_continuation_bytes_first_codepoint(
                    bytes@.subrange(at as int, end as int),
                )
                &&& w == length_of_first_codepoint(bytes@.subrange(at as int, end as int))
                &&& at + w <= end
            },
            None => !valid_leading_and_continuation_bytes_first_codepoint(
                bytes@.subrange(at as int, end as int),
            ),
        },
{
    let ghost s = bytes@.subrange(at as int, end as int);
    let w = utf8_len(bytes[at]);
    assert(s[0] == bytes@[at as int]);
    if w == 0 || w > end - at {
        return None;
    }
    let mut i: usize = 1;
    while i < w
        invariant
            1 <= i <= w <= 4,
            at + w <= end <= bytes@.len(),
            s == bytes@.subrange(at as int, end as int),
            w == lead_width(s[0]),
            forall|j: int| 1 <= j < i ==> is_continuation_byte(#[trigger] s[j]),
        decreases w - i,
    {
        assert(s[i as int] == bytes@[at + i]);
        if !utf8_cont_assert(bytes[at + i]) {
            assert(!is_continuation_byte(s[i as int]));
            assert(lead_width(s[0]) == w);
            assert(s.len() >= w);
            return None;
        }
        i = i + 1;
    }
    Some(w)
}

/// A framed run followed by more bytes: the whole is framed exactly when the rest is.
pub proof fn lemma_framed_concat(p: Seq<u8>, q: Seq<u8>)
    requires
        framed(p),
    ensures
        framed(p + q) == framed(q),
    decreases p.len(),
{
    if p.len() > 0 {
        let w = length_of_first_codepoint(p);
        assert((p + q).subrange(0, w) =~= p.subrange(0, w));
        assert(length_of_first_codepoint(p + q) == w);
        assert((p + q).subrange(w, (p + q).len() as int) =~= p.subrange(w, p.len() as int) + q);
        lemma_framed_concat(p.subrange(w, p.len() as int), q);
    } else {
        assert(p + q =~= q);
    }
}

/// Valid UTF-8 is framed.
pub proof fn lemma_valid_framed(s: Seq<u8>)
    requires
        valid_utf8(s),
    ensures
        framed(s),
    decreases s.len(),
{
    if s.len() > 0 {
        lemma_valid_framed(pop_first_scalar(s));
    }
}

/// Cutting after a framed run: the whole is valid exactly when both parts are, and then
/// its text is the text of the first part followed by that of the second.
pub proof fn lemma_valid_split(p: Seq<u8>, q: Seq<u8>)
    requires
        framed(p),
    ensures
        valid_utf8(p + q) <==> valid_utf8(p) && valid_utf8(q),
        valid_utf8(p + q) ==> decode_utf8(p + q) == decode_utf8(p) + decode_utf8(q),
    decreases p.len(),
{
    if p.len() == 0 {
        assert(p + q =~= q);
        assert(decode_utf8(p) =~= Seq::<char>::empty());
        assert(Seq::<char>::empty() + decode_utf8(q) =~= decode_utf8(q));
    } else {
        let w = length_of_first_codepoint(p);
        assert((p + q).subrange(0, w) =~= p.subrange(0, w));
        assert(length_of_first_codepoint(p + q) == w);
        assert(decode_first_codepoint(p + q) == decode_first_codepoint(p));
        assert(pop_first_scalar(p + q) =~= pop_first_scalar(p) + q);
        lemma_valid_split(pop_first_scalar(p), q);
        if valid_utf8(p + q) {
            assert(decode_utf8(p + q) =~= seq![decode_first_scalar(p) as char] + decode_utf8(
                pop_first_scalar(p),
            ) + decode_utf8(q));
        }
    }
}

/// Bytes framed up to a point where no complete, well-formed sequence starts are not
/// valid UTF-8.
pub proof fn lemma_invalid_at(s: Seq<u8>, k: int)
    requires
        0 <= k < s.len(),
        framed(s.subrange(0, k)),
        !valid_leading_and_continuation_bytes_first_codepoint(s.subrange(k, s.len() as int)),
    ensures
        !valid_utf8(s),
{
    assert(s =~= s.subrange(0, k) + s.subrange(k, s.len() as int));
    lemma_valid_split(s.subrange(0, k), s.subrange(k, s.len() as int));
}

/// Whether a run starts with a complete, well-formed sequence is decided by its first
/// four bytes.
pub proof fn lemma_leading_by_front(a: Seq<u8>, b: Seq<u8>)
    requires
        a.len() >= 4,
        b.len() >= 4,
        a[0] == b[0],
        a[1] == b[1],
        a[2] == b[2],
        a[3] == b[3],
    ensures
        valid_leading_and_continuation_bytes_first_codepoint(a)
            == valid_leading_and_continuation_bytes_first_codepoint(b),
{
}

/// When no continuation makes `q` valid, none makes a framed run followed by `q` valid.
pub proof fn lemma_no_valid_extension(p: Seq<u8>, q: Seq<u8>)
    requires
        framed(p),
        forall|x: Seq<u8>| !valid_utf8(#[trigger] (q + x)),
    ensures
        forall|x: Seq<u8>| !valid_utf8(#[trigger] ((p + q) + x)),
{
    assert forall|x: Seq<u8>| !valid_utf8(#[trigger] ((p + q) + x)) by {
        assert((p + q) + x =~= p + (q + x));
        lemma_valid_split(p, q + x);
    }
}

/// The encoding of two texts one after the other is the two encodings one after the other.
pub proof fn lemma_encode_concat(a: Seq<char>, b: Seq<char>)
    ensures
        encode_utf8(a + b) == encode_utf8(a) + encode_utf8(b),
    decreases a.len(),
{
    if a.len() == 0 {
        assert(a + b =~= b);
        assert(encode_utf8(a) =~= Seq::<u8>::empty());
        assert(Seq::<u8>::empty() + encode_utf8(b) =~= encode_utf8(b));
    } else {
        assert((a + b).drop_first() =~= a.drop_first() + b);
        assert((a + b)[0] == a[0]);
        lemma_encode_concat(a.drop_first(), b);
        assert(encode_utf8(a + b) =~= encode_scalar(a[0] as u32) + (encode_utf8(a.drop_first())
            + encode_utf8(b)));
    }
}

/// Relies on `core::str::from_utf8`: it succeeds exactly on valid UTF-8, and then the
/// text is the one those bytes encode.
#[verifier::external_body]
pub(crate) fn read_utf8(bytes: &[u8]) -> (r: Option<&str>)
    ensures
        r is Some <==> valid_utf8(bytes@),
        r is Some ==> r->0@ == decode_utf8(bytes@),
{
    core::str::from_utf8(bytes).ok()
}

/// Relies on `String::len`: the length of the text in bytes, that is of its UTF-8
/// encoding. (vstd's `str::len` gives that length only modulo the width of `usize`.)
#[verifier::external_body]
pub(crate) fn string_len(text: &String) -> (r: usize)
    ensures
        r == encode_utf8(text@).len(),
{
    text.len()
}

} // verus!
