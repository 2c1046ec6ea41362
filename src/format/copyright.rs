use vstd::prelude::*;
use vstd::utf8::*;

verus! {

broadcast use vstd::string::group_string_axioms;

/// The text that `String::from_utf8_lossy` makes of `b`.
pub uninterp spec fn utf8_lossy(b: Seq<u8>) -> Seq<char>;

/// Relies on `String::from_utf8_lossy`: its result depends on the bytes alone,
/// and bytes that are valid UTF-8 decode to exactly the text they encode.
#[verifier::external_body]
fn decode_lossy(b: &[u8]) -> (r: String)
    ensures
        r@ == utf8_lossy(b@),
        valid_utf8(b@) ==> r@ == decode_utf8(b@),
{
    String::from_utf8_lossy(b).into_owned()
}

/// `n` zero bytes.
pub open spec fn zeros(n: nat) -> Seq<u8> {
    Seq::new(n, |i: int| 0u8)
}

/// `s` without the zero bytes at its end.
pub open spec fn trim_trailing_zeros(s: Seq<u8>) -> Seq<u8>
    decreases s.len(),
{
    if s.len() > 0 && s.last() == 0 {
        trim_trailing_zeros(s.drop_last())
    } else {
        s
    }
}

/// The UTF-8 bytes of the copyright notice that a header field holds: the
/// field decoded as text, invalid sequences replaced, and the trailing nulls
/// dropped. A field that is valid UTF-8 is taken as it is.
pub open spec fn copyright_text_bytes(field: Seq<u8>) -> Seq<u8> {
    if valid_utf8(field) {
        trim_trailing_zeros(field)
    } else {
        trim_trailing_zeros(encode_utf8(utf8_lossy(field)))
    }
}

/// `trim_trailing_zeros(s)` is the prefix of `s` that ends before its run of
/// trailing zeros.
pub proof fn lemma_trim_trailing_zeros(s: Seq<u8>, k: int)
    requires
        0 <= k <= s.len(),
        forall|j: int| k <= j < s.len() ==> s[j] == 0,
        k == 0 || s[k - 1] != 0,
    ensures
        trim_trailing_zeros(s) == s.subrange(0, k),
    decreases s.len(),
{
    if s.len() == k {
        assert(s.subrange(0, k) =~= s);
    } else {
        lemma_trim_trailing_zeros(s.drop_last(), k);
        assert(s.drop_last().subrange(0, k) =~= s.subrange(0, k));
    }
}

/// The shape of `trim_trailing_zeros(s)`: a prefix of `s`, followed in `s`
/// by zeros only, and not ending in a zero.
pub proof fn lemma_trim_shape(s: Seq<u8>)
    ensures
        trim_trailing_zeros(s).len() <= s.len(),
        trim_trailing_zeros(s) == s.subrange(0, trim_trailing_zeros(s).len() as int),
        forall|j: int| trim_trailing_zeros(s).len() <= j < s.len() ==> s[j] == 0,
        trim_trailing_zeros(s).len() == 0 || trim_trailing_zeros(s).last() != 0,
    decreases s.len(),
{
    if s.len() > 0 && s.last() == 0 {
        lemma_trim_shape(s.drop_last());
        let t = trim_trailing_zeros(s);
        assert(t == s.drop_last().subrange(0, t.len() as int));
        assert(s.drop_last().subrange(0, t.len() as int) =~= s.subrange(0, t.len() as int));
        assert forall|j: int| t.len() <= j < s.len() implies s[j] == 0 by {
            if j < s.len() - 1 {
                assert(s[j] == s.drop_last()[j]);
            }
        }
    } else {
        assert(s.subrange(0, s.len() as int) =~= s);
    }
}

/// Padding with zeros changes nothing once trailing zeros are dropped.
pub proof fn lemma_trim_padded(s: Seq<u8>, n: nat)
    requires
        s.len() == 0 || s.last() != 0,
    ensures
        trim_trailing_zeros(s + zeros(n)) == s,
{
    let p = s + zeros(n);
    lemma_trim_trailing_zeros(p, s.len() as int);
    assert(p.subrange(0, s.len() as int) =~= s);
}

/// Zero bytes are valid UTF-8.
pub proof fn lemma_zeros_valid_utf8(n: nat)
    ensures
        valid_utf8(zeros(n)),
    decreases n,
{
    if n > 0 {
        let z = zeros(n);
        assert(z[0] == 0u8);
        assert(0u8 & 0x7f == 0u8) by (bit_vector);
        assert(valid_first_scalar(z));
        lemma_zeros_valid_utf8((n - 1) as nat);
        assert(pop_first_scalar(z) =~= zeros((n - 1) as nat));
    }
}

/// Trailing zeros are dropped from valid UTF-8 at a character boundary.
pub proof fn lemma_trim_valid_utf8(s: Seq<u8>)
    requires
        valid_utf8(s),
    ensures
        valid_utf8(trim_trailing_zeros(s)),
        is_char_boundary(s, trim_trailing_zeros(s).len() as int),
{
    lemma_trim_shape(s);
    let k = trim_trailing_zeros(s).len() as int;
    if k == s.len() {
        is_char_boundary_start_end_of_seq(s);
    } else {
        is_char_boundary_iff_not_is_continuation_byte(s, k);
    }
    valid_utf8_split(s, k);
}

/// The copyright notice in `text`: the text up to its trailing nulls.
pub fn trim_nul_padding(text: &str) -> (r: String)
    ensures
        encode_utf8(r@) == trim_trailing_zeros(encode_utf8(text@)),
        r@ == decode_utf8(trim_trailing_zeros(encode_utf8(text@))),
{
    let bytes = text.as_bytes();
    let mut k: usize = bytes.len();
    while k > 0 && bytes[k - 1] == 0
        invariant
            k <= bytes@.len(),
            forall|j: int| k <= j < bytes@.len() ==> bytes@[j] == 0,
        decreases k,
    {
        k = k - 1;
    }
    proof {
        lemma_trim_trailing_zeros(bytes@, k as int);
        encode_utf8_valid_utf8(text@);
        lemma_trim_valid_utf8(bytes@);
    }
    let (head, _tail) = text.split_at(k);
    let r = head.to_owned();
    proof {
        encode_utf8_decode_utf8(r@);
    }
    r
}

/// Decodes a copyright field: the text that the field's bytes hold, without
/// its trailing nulls.
pub fn copyright_from_field(field: &[u8]) -> (r: String)
    ensures
        encode_utf8(r@) == copyright_text_bytes(field@),
        r@ == decode_utf8(copyright_text_bytes(field@)),
{
    let text = decode_lossy(field);
    proof {
        if valid_utf8(field@) {
            decode_utf8_encode_utf8(field@);
        }
    }
    trim_nul_padding(text.as_str())
}

} // verus!
