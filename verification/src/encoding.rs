//! Byte strings as text, and several byte strings as one.

use base64::engine::general_purpose::{STANDARD, URL_SAFE_NO_PAD};
use base64::Engine;
use vstd::prelude::*;

use crate::plain::opt_view;

verus! {

/// The byte at a place, and zero behind the end.
pub open spec fn byte_or_zero(bytes: Seq<u8>, at: int) -> int {
    if 0 <= at < bytes.len() {
        bytes[at] as int
    } else {
        0
    }
}

/// The six bits that stand at a place of a byte string, read from the left.
pub open spec fn sextet(bytes: Seq<u8>, at: int) -> int {
    let group = 3 * (at / 4);
    if at % 4 == 0 {
        byte_or_zero(bytes, group) / 4
    } else if at % 4 == 1 {
        byte_or_zero(bytes, group) % 4 * 16 + byte_or_zero(bytes, group + 1) / 16
    } else if at % 4 == 2 {
        byte_or_zero(bytes, group + 1) % 16 * 4 + byte_or_zero(bytes, group + 2) / 64
    } else {
        byte_or_zero(bytes, group + 2) % 64
    }
}

/// The letter of six bits in the URL-safe alphabet.
pub open spec fn url_letter(bits: int) -> char {
    if bits < 26 {
        (65 + bits) as char
    } else if bits < 52 {
        (71 + bits) as char
    } else if bits < 62 {
        (bits - 4) as char
    } else if bits == 62 {
        '-'
    } else {
        '_'
    }
}

/// The URL-safe base64 form of a byte string, without padding.
pub open spec fn base64url(bytes: Seq<u8>) -> Seq<char> {
    Seq::new((4 * bytes.len() + 2) as nat / 3, |i: int| url_letter(sextet(bytes, i)))
}

/// `Engine::encode` of `URL_SAFE_NO_PAD` gives the unpadded URL-safe base64 form.
#[verifier::external_body]
pub(crate) fn base64_encode(bytes: &[u8]) -> (text: String)
    ensures
        text@ == base64url(bytes@),
{
    URL_SAFE_NO_PAD.encode(bytes)
}

/// `Engine::decode` of `URL_SAFE_NO_PAD` undoes the encoding, and accepts no other text: neither
/// padding nor foreign letters nor stray bits in the last letter.
#[verifier::external_body]
pub(crate) fn base64_decode(text: &str) -> (bytes: Option<Vec<u8>>)
    ensures
        match bytes {
            Some(decoded) => base64url(decoded@) == text@,
            None => forall|any: Seq<u8>| #[trigger] base64url(any) != text@,
        },
{
    URL_SAFE_NO_PAD.decode(text).ok()
}

/// The letter of six bits in the standard alphabet.
pub open spec fn standard_letter(bits: int) -> char {
    if bits == 62 {
        '+'
    } else if bits == 63 {
        '/'
    } else {
        url_letter(bits)
    }
}

/// The standard base64 form of a byte string, padded to groups of four.
pub open spec fn base64(bytes: Seq<u8>) -> Seq<char> {
    Seq::new(
        4 * ((bytes.len() + 2) as nat / 3),
        |i: int|
            if i < (4 * bytes.len() + 2) as nat / 3 {
                standard_letter(sextet(bytes, i))
            } else {
                '='
            },
    )
}

/// `Engine::encode` of `STANDARD` gives the padded standard base64 form.
#[verifier::external_body]
pub(crate) fn standard_encode(bytes: &[u8]) -> (text: String)
    ensures
        text@ == base64(bytes@),
{
    STANDARD.encode(bytes)
}

proof fn lemma_url_letter_injective(a: int, b: int)
    requires
        0 <= a < 64,
        0 <= b < 64,
        url_letter(a) == url_letter(b),
    ensures
        a == b,
{
}

proof fn lemma_sextet_range(bytes: Seq<u8>, at: int)
    ensures
        0 <= sextet(bytes, at) < 64,
{
}

/// The base64 form determines the byte string.
pub proof fn lemma_base64url_injective(a: Seq<u8>, b: Seq<u8>)
    requires
        base64url(a) == base64url(b),
    ensures
        a == b,
{
    let text = base64url(a);
    assert((4 * a.len() + 2) as nat / 3 == (4 * b.len() + 2) as nat / 3) by {
        assert(base64url(a).len() == base64url(b).len());
    }
    assert(a.len() == b.len());
    let n = a.len() as int;
    assert forall|at: int| 0 <= at < text.len() implies sextet(a, at) == sextet(b, at) by {
        assert(base64url(a)[at] == base64url(b)[at]);
        lemma_sextet_range(a, at);
        lemma_sextet_range(b, at);
        lemma_url_letter_injective(sextet(a, at), sextet(b, at));
    }
    assert forall|p: int| 0 <= p < n implies a[p] == b[p] by {
        let q = 4 * (p / 3);
        if p % 3 == 0 {
            assert(sextet(a, q) == sextet(b, q));
            assert(sextet(a, q + 1) == sextet(b, q + 1));
            assert(q / 4 == p / 3);
            assert((q + 1) / 4 == p / 3);
            assert(a[p] as int == 4 * sextet(a, q) + sextet(a, q + 1) / 16);
            assert(b[p] as int == 4 * sextet(b, q) + sextet(b, q + 1) / 16);
        } else if p % 3 == 1 {
            assert(sextet(a, q + 1) == sextet(b, q + 1));
            assert(sextet(a, q + 2) == sextet(b, q + 2));
            assert((q + 1) / 4 == p / 3);
            assert((q + 2) / 4 == p / 3);
            assert(a[p] as int == 16 * (sextet(a, q + 1) % 16) + sextet(a, q + 2) / 4);
            assert(b[p] as int == 16 * (sextet(b, q + 1) % 16) + sextet(b, q + 2) / 4);
        } else {
            assert(sextet(a, q + 2) == sextet(b, q + 2));
            assert(sextet(a, q + 3) == sextet(b, q + 3));
            assert((q + 2) / 4 == p / 3);
            assert((q + 3) / 4 == p / 3);
            assert(a[p] as int == 64 * (sextet(a, q + 2) % 4) + sextet(a, q + 3));
            assert(b[p] as int == 64 * (sextet(b, q + 2) % 4) + sextet(b, q + 3));
        }
    }
    assert(a =~= b);
}

/// The byte string that a base64 text encodes, if it encodes one.
pub open spec fn decoded(text: Seq<char>) -> Option<Seq<u8>> {
    if exists|bytes: Seq<u8>| #[trigger] base64url(bytes) == text {
        Some(choose|bytes: Seq<u8>| #[trigger] base64url(bytes) == text)
    } else {
        None
    }
}

/// What the base64 form of a byte string encodes is that byte string.
pub proof fn lemma_decoded(bytes: Seq<u8>)
    ensures
        decoded(base64url(bytes)) == Some(bytes),
{
    let text = base64url(bytes);
    let found = choose|any: Seq<u8>| #[trigger] base64url(any) == text;
    assert(base64url(found) == text);
    lemma_base64url_injective(found, bytes);
}

/// The byte string that a base64 text encodes, if it encodes one.
pub fn decode(text: &str) -> (bytes: Option<Vec<u8>>)
    ensures
        opt_view(bytes) == decoded(text@),
{
    match base64_decode(text) {
        None => None,
        Some(bytes) => {
            proof {
                lemma_decoded(bytes@);
            }
            Some(bytes)
        },
    }
}

/// No letter of the base64 form is a full stop.
pub proof fn lemma_base64url_letters(bytes: Seq<u8>)
    ensures
        !base64url(bytes).contains('.'),
{
    let text = base64url(bytes);
    assert forall|i: int| 0 <= i < text.len() implies text[i] != '.' by {
        lemma_sextet_range(bytes, i);
    }
}

/// The byte string of the given length that a base64 text encodes, if it encodes one.
pub open spec fn decodes_to(text: Seq<char>, bytes: Seq<u8>, length: int) -> bool {
    base64url(bytes) == text && bytes.len() == length
}

/// The text is the base64 form of some byte string of the given length.
pub open spec fn decodable(text: Seq<char>, length: int) -> bool {
    exists|bytes: Seq<u8>| #[trigger] decodes_to(text, bytes, length)
}

/// The byte string that a base64 text encodes, where it has the given length.
pub fn decode_fixed(value: &str, length: usize) -> (result: Option<Vec<u8>>)
    ensures
        result is Some <==> decodable(value@, length as int),
        result matches Some(bytes) ==> decodes_to(value@, bytes@, length as int),
{
    match base64_decode(value) {
        None => {
            assert(forall|bytes: Seq<u8>| #[trigger]
                decodes_to(value@, bytes, length as int) ==> base64url(bytes) == value@);
            None
        },
        Some(bytes) => {
            proof {
                assert forall|other: Seq<u8>| #[trigger]
                    decodes_to(value@, other, length as int) implies other == bytes@ by {
                    lemma_base64url_injective(other, bytes@);
                }
            }
            if bytes.len() == length {
                assert(decodes_to(value@, bytes@, length as int));
                Some(bytes)
            } else {
                None
            }
        },
    }
}

/// A length in four bytes, the highest first. Lengths of four gibibytes and more wrap.
pub open spec fn be32(length: int) -> Seq<u8> {
    let n = length % 0x1_0000_0000;
    seq![
        (n / 0x100_0000) as u8,
        (n / 0x1_0000 % 0x100) as u8,
        (n / 0x100 % 0x100) as u8,
        (n % 0x100) as u8,
    ]
}

/// The fields one after the other, each behind its length.
pub open spec fn length_prefixed(fields: Seq<Seq<u8>>) -> Seq<u8>
    decreases fields.len(),
{
    if fields.len() == 0 {
        Seq::empty()
    } else {
        length_prefixed(fields.drop_last()) + be32(fields.last().len() as int) + fields.last()
    }
}

/// Appends a field behind its length.
pub fn push_field(output: &mut Vec<u8>, field: &[u8])
    ensures
        final(output)@ == old(output)@ + be32(field@.len() as int) + field@,
{
    let ghost before = output@;
    let n: u64 = field.len() as u64 % 0x1_0000_0000;
    output.push((n / 0x100_0000) as u8);
    output.push((n / 0x1_0000 % 0x100) as u8);
    output.push((n / 0x100 % 0x100) as u8);
    output.push((n % 0x100) as u8);
    assert(output@ =~= before + be32(field@.len() as int));
    output.extend_from_slice(field);
    assert(output@ =~= before + be32(field@.len() as int) + field@);
}

proof fn lemma_be32_injective(a: int, b: int)
    requires
        0 <= a < 0x1_0000_0000,
        0 <= b < 0x1_0000_0000,
        be32(a) == be32(b),
    ensures
        a == b,
{
    assert(be32(a)[0] == be32(b)[0]);
    assert(be32(a)[1] == be32(b)[1]);
    assert(be32(a)[2] == be32(b)[2]);
    assert(be32(a)[3] == be32(b)[3]);
    assert(a == a / 0x100_0000 * 0x100_0000 + a / 0x1_0000 % 0x100 * 0x1_0000 + a / 0x100 % 0x100
        * 0x100 + a % 0x100);
    assert(b == b / 0x100_0000 * 0x100_0000 + b / 0x1_0000 % 0x100 * 0x1_0000 + b / 0x100 % 0x100
        * 0x100 + b % 0x100);
}

/// The first field stands in front.
pub proof fn lemma_prefixed_front(fields: Seq<Seq<u8>>)
    requires
        fields.len() > 0,
    ensures
        length_prefixed(fields) == be32(fields[0].len() as int) + fields[0] + length_prefixed(
            fields.drop_first(),
        ),
    decreases fields.len(),
{
    if fields.len() == 1 {
        assert(fields.drop_last() =~= Seq::empty());
        assert(fields.drop_first() =~= Seq::empty());
        assert(length_prefixed(fields) =~= be32(fields[0].len() as int) + fields[0]
            + length_prefixed(fields.drop_first()));
    } else {
        lemma_prefixed_front(fields.drop_last());
        let inner = fields.drop_first();
        assert(fields.drop_last().drop_first() =~= inner.drop_last());
        assert(length_prefixed(fields) =~= be32(fields[0].len() as int) + fields[0]
            + length_prefixed(inner));
    }
}

/// Length prefixes make a concatenation unambiguous: as many fields, each shorter than four
/// gibibytes, give the same bytes only where they are the same fields.
pub proof fn lemma_length_prefixed_injective(a: Seq<Seq<u8>>, b: Seq<Seq<u8>>)
    requires
        a.len() == b.len(),
        forall|i: int| 0 <= i < a.len() ==> (#[trigger] a[i]).len() < 0x1_0000_0000,
        forall|i: int| 0 <= i < b.len() ==> (#[trigger] b[i]).len() < 0x1_0000_0000,
        length_prefixed(a) == length_prefixed(b),
    ensures
        a == b,
    decreases a.len(),
{
    if a.len() == 0 {
        assert(a =~= b);
    } else {
        lemma_prefixed_front(a);
        lemma_prefixed_front(b);
        let whole = length_prefixed(a);
        let x = a[0].len() as int;
        let y = b[0].len() as int;
        assert(whole.take(4) =~= be32(x));
        assert(whole.take(4) =~= be32(y));
        lemma_be32_injective(x, y);
        assert(whole.subrange(4, 4 + x) =~= a[0]);
        assert(whole.subrange(4, 4 + x) =~= b[0]);
        assert(whole.skip(4 + x) =~= length_prefixed(a.drop_first()));
        assert(whole.skip(4 + x) =~= length_prefixed(b.drop_first()));
        assert forall|i: int| 0 <= i < a.drop_first().len() implies (#[trigger] a.drop_first(
        )[i]).len() < 0x1_0000_0000 by {
            assert(a.drop_first()[i] == a[i + 1]);
        }
        assert forall|i: int| 0 <= i < b.drop_first().len() implies (#[trigger] b.drop_first(
        )[i]).len() < 0x1_0000_0000 by {
            assert(b.drop_first()[i] == b[i + 1]);
        }
        lemma_length_prefixed_injective(a.drop_first(), b.drop_first());
        assert(a =~= seq![a[0]] + a.drop_first());
        assert(b =~= seq![b[0]] + b.drop_first());
    }
}

} // verus!
