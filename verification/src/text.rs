//! Text as the rest of the library sees it: a sequence of characters, ordered by the
//! bytes of its UTF-8 encoding.

use vstd::prelude::*;
use vstd::string::*;
use vstd::utf8::*;

use crate::plain::views;

verus! {

/// Lexicographic order of byte strings.
pub open spec fn bytes_lt(a: Seq<u8>, b: Seq<u8>) -> bool
    decreases a.len(),
{
    if b.len() == 0 {
        false
    } else if a.len() == 0 {
        true
    } else if a[0] != b[0] {
        a[0] < b[0]
    } else {
        bytes_lt(a.drop_first(), b.drop_first())
    }
}

/// The order of text: that of its UTF-8 bytes, which is also that of its code points.
pub open spec fn text_before(a: Seq<char>, b: Seq<char>) -> bool {
    bytes_lt(encode_utf8(a), encode_utf8(b))
}

/// No byte string comes before itself.
pub proof fn lemma_bytes_lt_irreflexive(a: Seq<u8>)
    ensures
        !bytes_lt(a, a),
    decreases a.len(),
{
    if a.len() > 0 {
        lemma_bytes_lt_irreflexive(a.drop_first());
    }
}

/// Of two byte strings at most one comes before the other.
pub proof fn lemma_bytes_lt_asymmetric(a: Seq<u8>, b: Seq<u8>)
    requires
        bytes_lt(a, b),
    ensures
        !bytes_lt(b, a),
    decreases a.len(),
{
    if a.len() > 0 && a[0] == b[0] {
        lemma_bytes_lt_asymmetric(a.drop_first(), b.drop_first());
    }
}

/// The order of byte strings is transitive.
pub proof fn lemma_bytes_lt_transitive(a: Seq<u8>, b: Seq<u8>, c: Seq<u8>)
    requires
        bytes_lt(a, b),
        bytes_lt(b, c),
    ensures
        bytes_lt(a, c),
    decreases a.len(),
{
    if a.len() > 0 && a[0] == b[0] && b[0] == c[0] {
        lemma_bytes_lt_transitive(a.drop_first(), b.drop_first(), c.drop_first());
    }
}

/// Two different byte strings are ordered one way or the other.
pub proof fn lemma_bytes_lt_total(a: Seq<u8>, b: Seq<u8>)
    ensures
        a == b || bytes_lt(a, b) || bytes_lt(b, a),
    decreases a.len(),
{
    if a.len() > 0 && b.len() > 0 && a[0] == b[0] {
        lemma_bytes_lt_total(a.drop_first(), b.drop_first());
        if a.drop_first() == b.drop_first() {
            assert(a =~= seq![a[0]] + a.drop_first());
            assert(b =~= seq![b[0]] + b.drop_first());
        }
    } else if a.len() == 0 && b.len() == 0 {
        assert(a =~= b);
    }
}

/// A common prefix does not decide the order of two byte strings.
proof fn lemma_bytes_lt_skip(a: Seq<u8>, b: Seq<u8>, n: int)
    requires
        0 <= n <= a.len(),
        n <= b.len(),
        forall|i: int| 0 <= i < n ==> a[i] == b[i],
    ensures
        bytes_lt(a, b) == bytes_lt(a.skip(n), b.skip(n)),
    decreases n,
{
    if n == 0 {
        assert(a.skip(0) =~= a);
        assert(b.skip(0) =~= b);
    } else {
        assert(a[0] == b[0]);
        assert forall|i: int| 0 <= i < n - 1 implies a.drop_first()[i] == b.drop_first()[i] by {
            assert(a[i + 1] == b[i + 1]);
        }
        lemma_bytes_lt_skip(a.drop_first(), b.drop_first(), n - 1);
        assert(a.drop_first().skip(n - 1) =~= a.skip(n));
        assert(b.drop_first().skip(n - 1) =~= b.skip(n));
    }
}

/// The UTF-8 encoding determines the text.
pub proof fn lemma_encode_utf8_injective(a: Seq<char>, b: Seq<char>)
    requires
        encode_utf8(a) == encode_utf8(b),
    ensures
        a == b,
{
    encode_utf8_decode_utf8(a);
    encode_utf8_decode_utf8(b);
}

/// The order of text is a strict total order.
pub proof fn lemma_text_order(a: Seq<char>, b: Seq<char>, c: Seq<char>)
    ensures
        !text_before(a, a),
        text_before(a, b) ==> !text_before(b, a) && a != b,
        text_before(a, b) && text_before(b, c) ==> text_before(a, c),
        a == b || text_before(a, b) || text_before(b, a),
{
    let x = encode_utf8(a);
    let y = encode_utf8(b);
    let z = encode_utf8(c);
    lemma_bytes_lt_irreflexive(x);
    if bytes_lt(x, y) {
        lemma_bytes_lt_asymmetric(x, y);
        if bytes_lt(y, z) {
            lemma_bytes_lt_transitive(x, y, z);
        }
    }
    lemma_bytes_lt_total(x, y);
    if x == y {
        lemma_encode_utf8_injective(a, b);
    }
}

/// Whether two byte strings are equal.
pub fn bytes_eq(a: &[u8], b: &[u8]) -> (equal: bool)
    ensures
        equal == (a@ == b@),
{
    if a.len() != b.len() {
        return false;
    }
    let mut i: usize = 0;
    while i < a.len()
        invariant
            a.len() == b.len(),
            i <= a.len(),
            forall|j: int| 0 <= j < i ==> a@[j] == b@[j],
        decreases a.len() - i,
    {
        if a[i] != b[i] {
            return false;
        }
        i = i + 1;
    }
    assert(a@ =~= b@);
    true
}

/// Whether two texts are equal.
pub fn text_eq(a: &str, b: &str) -> (equal: bool)
    ensures
        equal == (a@ == b@),
{
    let equal = bytes_eq(a.as_bytes(), b.as_bytes());
    proof {
        if equal {
            lemma_encode_utf8_injective(a@, b@);
        }
    }
    equal
}

/// Whether one text comes before another.
pub fn text_lt(a: &str, b: &str) -> (before: bool)
    ensures
        before == text_before(a@, b@),
{
    let x = a.as_bytes();
    let y = b.as_bytes();
    let mut i: usize = 0;
    while i < x.len() && i < y.len()
        invariant
            x@ == encode_utf8(a@),
            y@ == encode_utf8(b@),
            i <= x.len(),
            i <= y.len(),
            forall|j: int| 0 <= j < i ==> x@[j] == y@[j],
        decreases x.len() - i,
    {
        if x[i] != y[i] {
            proof {
                lemma_bytes_lt_skip(x@, y@, i as int);
                assert(x@.skip(i as int)[0] == x@[i as int]);
                assert(y@.skip(i as int)[0] == y@[i as int]);
            }
            return x[i] < y[i];
        }
        i = i + 1;
    }
    proof {
        lemma_bytes_lt_skip(x@, y@, i as int);
    }
    i < y.len()
}

/// `String::push` appends one character.
pub assume_specification[ String::push ](text: &mut String, character: char)
    ensures
        final(text)@ == old(text)@.push(character),
;

/// The characters of a text.
pub fn chars_of(text: &str) -> (characters: Vec<char>)
    ensures
        characters@ == text@,
{
    let mut characters: Vec<char> = Vec::new();
    for character in iterator: text.chars()
        invariant
            iterator.seq() == text@,
            characters@ == text@.take(iterator.index()),
    {
        characters.push(character);
        assert(text@.take(iterator.index()).push(character) =~= text@.take(
            iterator.index() + 1,
        ));
    }
    assert(text@.take(text@.len() as int) =~= text@);
    characters
}

/// The text made of the given characters.
pub fn text_of(characters: &[char]) -> (text: String)
    ensures
        text@ == characters@,
{
    let mut text = String::new();
    let mut i: usize = 0;
    while i < characters.len()
        invariant
            i <= characters.len(),
            text@ == characters@.take(i as int),
        decreases characters.len() - i,
    {
        text.push(characters[i]);
        i = i + 1;
        assert(characters@.take(i - 1).push(characters@[i - 1]) =~= characters@.take(i as int));
    }
    assert(characters@.take(i as int) =~= characters@);
    text
}

/// A number in decimal digits.
pub open spec fn decimal(n: nat) -> Seq<char>
    decreases n,
{
    if n < 10 {
        seq![(48 + n) as char]
    } else {
        decimal(n / 10).push((48 + n % 10) as char)
    }
}

/// The number in decimal digits.
pub fn decimal_text(n: u64) -> (text: String)
    ensures
        text@ == decimal(n as nat),
    decreases n,
{
    let mut text = if n < 10 {
        String::new()
    } else {
        decimal_text(n / 10)
    };
    let digit: u8 = (n % 10) as u8;
    text.push((48 + digit) as char);
    assert(n < 10 ==> text@ =~= decimal(n as nat));
    text
}

/// A whole number in decimal digits, with a sign where it is negative.
pub open spec fn signed_decimal(n: int) -> Seq<char> {
    if n < 0 {
        seq!['-'] + decimal((-n) as nat)
    } else {
        decimal(n as nat)
    }
}

/// The whole number in decimal digits.
pub fn signed_text(n: i64) -> (text: String)
    ensures
        text@ == signed_decimal(n as int),
{
    if n < 0 {
        let mut text = String::new();
        text.push('-');
        let size: u64 = (-(n as i128)) as u64;
        text.append(decimal_text(size).as_str());
        assert(text@ =~= signed_decimal(n as int));
        text
    } else {
        decimal_text(n as u64)
    }
}

/// The number that a sequence of decimal digits stands for.
pub open spec fn decimal_value(digits: Seq<char>) -> nat
    decreases digits.len(),
{
    if digits.len() == 0 {
        0
    } else {
        10 * decimal_value(digits.drop_last()) + (digits.last() as nat - 48) as nat
    }
}

/// The decimal digits determine the number, and are digits.
pub proof fn lemma_decimal(n: nat)
    ensures
        decimal_value(decimal(n)) == n,
        decimal(n).len() > 0,
        forall|i: int| 0 <= i < decimal(n).len() ==> '0' <= #[trigger] decimal(n)[i] <= '9',
    decreases n,
{
    if n < 10 {
        let digits = decimal(n);
        assert(digits.drop_last() =~= Seq::<char>::empty());
        assert(digits.last() as nat == 48 + n);
        assert(decimal_value(digits.drop_last()) == 0);
    } else {
        lemma_decimal(n / 10);
        let digits = decimal(n);
        assert(digits.drop_last() =~= decimal(n / 10));
        assert(digits.last() as nat == 48 + n % 10);
        assert forall|i: int| 0 <= i < digits.len() implies '0' <= #[trigger] digits[i] <= '9' by {
            if i < digits.len() - 1 {
                assert(digits[i] == decimal(n / 10)[i]);
            }
        }
    }
}

/// White space: the characters that have the Unicode property `White_Space`.
pub open spec fn whitespace(character: char) -> bool {
    ||| '\u{9}' <= character <= '\u{d}'
    ||| character == ' '
    ||| character == '\u{85}'
    ||| character == '\u{a0}'
    ||| character == '\u{1680}'
    ||| '\u{2000}' <= character <= '\u{200a}'
    ||| character == '\u{2028}'
    ||| character == '\u{2029}'
    ||| character == '\u{202f}'
    ||| character == '\u{205f}'
    ||| character == '\u{3000}'
}

/// Whether a character is white space.
pub fn is_whitespace(character: char) -> (space: bool)
    ensures
        space == whitespace(character),
{
    ('\u{9}' <= character && character <= '\u{d}') || character == ' ' || character == '\u{85}'
        || character == '\u{a0}' || character == '\u{1680}' || ('\u{2000}' <= character && character
        <= '\u{200a}') || character == '\u{2028}' || character == '\u{2029}' || character
        == '\u{202f}' || character == '\u{205f}' || character == '\u{3000}'
}

/// Text of white space alone, or none at all.
pub open spec fn blank(text: Seq<char>) -> bool {
    forall|i: int| 0 <= i < text.len() ==> whitespace(#[trigger] text[i])
}

/// The text from its first character that is not white space.
pub open spec fn trim_start(text: Seq<char>) -> Seq<char>
    decreases text.len(),
{
    if text.len() > 0 && whitespace(text[0]) {
        trim_start(text.drop_first())
    } else {
        text
    }
}

/// The text up to its last character that is not white space.
pub open spec fn trim_end(text: Seq<char>) -> Seq<char>
    decreases text.len(),
{
    if text.len() > 0 && whitespace(text.last()) {
        trim_end(text.drop_last())
    } else {
        text
    }
}

/// The text without white space at its ends.
pub open spec fn trimmed(text: Seq<char>) -> Seq<char> {
    trim_end(trim_start(text))
}

proof fn lemma_trim_start(text: Seq<char>, n: int)
    requires
        0 <= n <= text.len(),
        forall|i: int| 0 <= i < n ==> whitespace(#[trigger] text[i]),
        n < text.len() ==> !whitespace(text[n]),
    ensures
        trim_start(text) == text.skip(n),
    decreases n,
{
    if n > 0 {
        assert(whitespace(text[0]));
        assert forall|i: int| 0 <= i < n - 1 implies whitespace(
            #[trigger] text.drop_first()[i],
        ) by {
            assert(whitespace(text[i + 1]));
        }
        lemma_trim_start(text.drop_first(), n - 1);
        assert(text.drop_first().skip(n - 1) =~= text.skip(n));
    } else {
        assert(text.skip(0) =~= text);
    }
}

proof fn lemma_trim_end(text: Seq<char>, n: int)
    requires
        0 <= n <= text.len(),
        forall|i: int| n <= i < text.len() ==> whitespace(#[trigger] text[i]),
        n > 0 ==> !whitespace(text[n - 1]),
    ensures
        trim_end(text) == text.take(n),
    decreases text.len() - n,
{
    if n < text.len() {
        assert(whitespace(text[text.len() - 1]));
        assert forall|i: int| n <= i < text.len() - 1 implies whitespace(
            #[trigger] text.drop_last()[i],
        ) by {
            assert(whitespace(text[i]));
        }
        lemma_trim_end(text.drop_last(), n);
        assert(text.drop_last().take(n) =~= text.take(n));
    } else {
        assert(text.take(n) =~= text);
    }
}

/// A text is blank exactly where nothing is left of it without white space at its ends.
pub proof fn lemma_blank_trimmed(text: Seq<char>)
    ensures
        blank(text) <==> trimmed(text).len() == 0,
{
    lemma_blank_trim_start(text);
    lemma_blank_trim_end(trim_start(text));
}

proof fn lemma_blank_trim_start(text: Seq<char>)
    ensures
        blank(text) <==> blank(trim_start(text)),
        blank(text) <==> trim_start(text).len() == 0,
    decreases text.len(),
{
    if text.len() > 0 && whitespace(text[0]) {
        let rest = text.drop_first();
        lemma_blank_trim_start(rest);
        if blank(rest) {
            assert forall|i: int| 0 <= i < text.len() implies whitespace(#[trigger] text[i]) by {
                if i > 0 {
                    assert(text[i] == rest[i - 1]);
                }
            }
        }
        if blank(text) {
            assert forall|i: int| 0 <= i < rest.len() implies whitespace(#[trigger] rest[i]) by {
                assert(rest[i] == text[i + 1]);
            }
        }
    } else if text.len() > 0 {
        assert(!whitespace(text[0]));
    }
}

proof fn lemma_blank_trim_end(text: Seq<char>)
    ensures
        blank(text) <==> trim_end(text).len() == 0,
    decreases text.len(),
{
    if text.len() > 0 && whitespace(text.last()) {
        let rest = text.drop_last();
        lemma_blank_trim_end(rest);
        if blank(rest) {
            assert forall|i: int| 0 <= i < text.len() implies whitespace(#[trigger] text[i]) by {
                if i < rest.len() {
                    assert(text[i] == rest[i]);
                }
            }
        }
        if blank(text) {
            assert forall|i: int| 0 <= i < rest.len() implies whitespace(#[trigger] rest[i]) by {
                assert(rest[i] == text[i]);
            }
        }
    } else if text.len() > 0 {
        assert(!whitespace(text[text.len() - 1]));
    }
}

/// Whether a text is white space alone, or empty.
pub fn is_blank(text: &str) -> (result: bool)
    ensures
        result == blank(text@),
{
    let characters = chars_of(text);
    let mut i: usize = 0;
    while i < characters.len()
        invariant
            characters@ == text@,
            i <= characters.len(),
            forall|j: int| 0 <= j < i ==> whitespace(#[trigger] text@[j]),
        decreases characters.len() - i,
    {
        if !is_whitespace(characters[i]) {
            assert(!whitespace(text@[i as int]));
            return false;
        }
        i = i + 1;
    }
    true
}

/// The text without white space at its ends.
pub fn trim(text: &str) -> (rest: String)
    ensures
        rest@ == trimmed(text@),
{
    let characters = chars_of(text);
    let mut start: usize = 0;
    while start < characters.len() && is_whitespace(characters[start])
        invariant
            characters@ == text@,
            start <= characters.len(),
            forall|j: int| 0 <= j < start ==> whitespace(#[trigger] text@[j]),
        decreases characters.len() - start,
    {
        start = start + 1;
    }
    proof {
        lemma_trim_start(text@, start as int);
    }
    let mut end: usize = characters.len();
    let ghost kept = text@.skip(start as int);
    while end > start && is_whitespace(characters[end - 1])
        invariant
            characters@ == text@,
            kept == text@.skip(start as int),
            start <= end <= characters.len(),
            forall|j: int| end - start <= j < kept.len() ==> whitespace(#[trigger] kept[j]),
        decreases end,
    {
        end = end - 1;
        assert(kept[end - start] == text@[end as int]);
    }
    proof {
        if end > start {
            assert(kept[end - start - 1] == text@[end - 1]);
        }
        lemma_trim_end(kept, end - start);
        assert(text@.subrange(start as int, end as int) =~= kept.take(end - start));
    }
    text.substring_char(start, end).to_owned()
}

/// Whether a text holds a character.
pub fn contains_char(text: &str, character: char) -> (found: bool)
    ensures
        found == text@.contains(character),
{
    let characters = chars_of(text);
    let mut i: usize = 0;
    while i < characters.len()
        invariant
            characters@ == text@,
            i <= characters.len(),
            forall|j: int| 0 <= j < i ==> text@[j] != character,
        decreases characters.len() - i,
    {
        if characters[i] == character {
            assert(text@[i as int] == character);
            return true;
        }
        i = i + 1;
    }
    false
}

/// The text begins with the given one.
pub open spec fn starts_with(text: Seq<char>, prefix: Seq<char>) -> bool {
    text.len() >= prefix.len() && text.take(prefix.len() as int) == prefix
}

/// The text ends with the given one.
pub open spec fn ends_with(text: Seq<char>, suffix: Seq<char>) -> bool {
    text.len() >= suffix.len() && text.skip(text.len() - suffix.len()) == suffix
}

/// Whether a text begins with another.
pub fn has_prefix(text: &str, prefix: &str) -> (result: bool)
    ensures
        result == starts_with(text@, prefix@),
{
    let length: usize = text.unicode_len();
    let size: usize = prefix.unicode_len();
    if length < size {
        return false;
    }
    text_eq(text.substring_char(0, size), prefix)
}

/// Whether a text ends with another.
pub fn has_suffix(text: &str, suffix: &str) -> (result: bool)
    ensures
        result == ends_with(text@, suffix@),
{
    let length: usize = text.unicode_len();
    let size: usize = suffix.unicode_len();
    if length < size {
        return false;
    }
    text_eq(text.substring_char(length - size, length), suffix)
}

/// What stands behind a prefix, if the text begins with it.
pub fn after_prefix<'a>(text: &'a str, prefix: &str) -> (rest: Option<&'a str>)
    ensures
        rest is Some <==> starts_with(text@, prefix@),
        rest matches Some(remainder) ==> remainder@ == text@.skip(prefix@.len() as int),
{
    if has_prefix(text, prefix) {
        Some(text.substring_char(prefix.unicode_len(), text.unicode_len()))
    } else {
        None
    }
}

/// The text without the given character at its end, however often it stands there.
pub open spec fn without_trailing(text: Seq<char>, character: char) -> Seq<char>
    decreases text.len(),
{
    if text.len() > 0 && text.last() == character {
        without_trailing(text.drop_last(), character)
    } else {
        text
    }
}

/// The text without the given character at its end, however often it stands there.
pub fn trim_trailing(text: &str, character: char) -> (rest: String)
    ensures
        rest@ == without_trailing(text@, character),
{
    let characters = chars_of(text);
    let mut end: usize = characters.len();
    assert(text@.take(end as int) =~= text@);
    while end > 0 && characters[end - 1] == character
        invariant
            characters@ == text@,
            end <= characters.len(),
            without_trailing(text@.take(end as int), character) == without_trailing(
                text@,
                character,
            ),
        decreases end,
    {
        assert(text@.take(end as int).drop_last() =~= text@.take(end - 1));
        end = end - 1;
    }
    assert(text@.subrange(0, end as int) =~= text@.take(end as int));
    text.substring_char(0, end).to_owned()
}

/// A text without the given character at its start.
pub open spec fn without_leading(text: Seq<char>, character: char) -> Seq<char>
    decreases text.len(),
{
    if text.len() > 0 && text[0] == character {
        without_leading(text.drop_first(), character)
    } else {
        text
    }
}

/// A text without the given character at its start.
pub fn trim_leading(text: &str, character: char) -> (rest: String)
    ensures
        rest@ == without_leading(text@, character),
{
    let characters = chars_of(text);
    let mut start: usize = 0;
    assert(text@.skip(0) =~= text@);
    while start < characters.len() && characters[start] == character
        invariant
            characters@ == text@,
            start <= characters.len(),
            without_leading(text@.skip(start as int), character) == without_leading(
                text@,
                character,
            ),
        decreases characters.len() - start,
    {
        assert(text@.skip(start as int).drop_first() =~= text@.skip(start + 1));
        start = start + 1;
    }
    assert(characters@.subrange(start as int, characters@.len() as int) =~= text@.skip(
        start as int,
    ));
    text_of(vstd::slice::slice_subrange(characters.as_slice(), start, characters.len()))
}

/// A character with the ASCII capital letters made small.
pub open spec fn ascii_lower(character: char) -> char {
    if 'A' <= character <= 'Z' {
        (character as u32 + 32) as char
    } else {
        character
    }
}

/// A text with the ASCII capital letters made small.
pub open spec fn ascii_lowercase(text: Seq<char>) -> Seq<char> {
    text.map_values(|character: char| ascii_lower(character))
}

/// The small form of an ASCII letter; any other character as it is.
pub fn lower(character: char) -> (small: char)
    ensures
        small == ascii_lower(character),
{
    if 'A' <= character && character <= 'Z' {
        (character as u8 + 32) as char
    } else {
        character
    }
}

/// The text with the ASCII capital letters made small.
pub fn to_lowercase_ascii(text: &str) -> (small: String)
    ensures
        small@ == ascii_lowercase(text@),
{
    let characters = chars_of(text);
    let mut small = String::new();
    let mut i: usize = 0;
    while i < characters.len()
        invariant
            characters@ == text@,
            i <= characters.len(),
            small@ == ascii_lowercase(text@.take(i as int)),
        decreases characters.len() - i,
    {
        small.push(lower(characters[i]));
        i = i + 1;
        assert(small@ =~= ascii_lowercase(text@.take(i as int)));
    }
    assert(text@.take(i as int) =~= text@);
    small
}

/// `String::from_utf8` reads bytes as text, where they are the UTF-8 encoding of one.
#[verifier::external_body]
pub(crate) fn text_from_utf8(bytes: &[u8]) -> (text: Option<String>)
    ensures
        text is Some <==> valid_utf8(bytes@),
        text matches Some(decoded) ==> encode_utf8(decoded@) == bytes@,
{
    String::from_utf8(bytes.to_vec()).ok()
}

/// The place of the last such character, and minus one where there is none.
pub open spec fn last_place(text: Seq<char>, character: char) -> int
    decreases text.len(),
{
    if text.len() == 0 {
        -1
    } else if text.last() == character {
        text.len() - 1
    } else {
        last_place(text.drop_last(), character)
    }
}

/// The place of the last such character, if there is one.
pub fn last_index(characters: &[char], character: char) -> (place: Option<usize>)
    ensures
        match place {
            Some(at) => at == last_place(characters@, character) && at < characters@.len(),
            None => last_place(characters@, character) == -1,
        },
{
    let mut end: usize = characters.len();
    assert(characters@.take(end as int) =~= characters@);
    while end > 0
        invariant
            end <= characters@.len(),
            last_place(characters@.take(end as int), character) == last_place(
                characters@,
                character,
            ),
        decreases end,
    {
        assert(characters@.take(end as int).drop_last() =~= characters@.take(end - 1));
        if characters[end - 1] == character {
            return Some(end - 1);
        }
        end = end - 1;
    }
    None
}

/// The place of the last such character, and where there is none.
pub proof fn lemma_last_place(text: Seq<char>, character: char)
    ensures
        -1 <= last_place(text, character) < text.len(),
        last_place(text, character) >= 0 ==> text[last_place(text, character)] == character,
        last_place(text, character) < 0 <==> !text.contains(character),
    decreases text.len(),
{
    if text.len() > 0 {
        if text.last() == character {
            assert(text[text.len() - 1] == character);
        } else {
            let shorter = text.drop_last();
            lemma_last_place(shorter, character);
            if shorter.contains(character) {
                let i = choose|i: int| 0 <= i < shorter.len() && shorter[i] == character;
                assert(text[i] == character);
            }
            if text.contains(character) {
                let i = choose|i: int| 0 <= i < text.len() && text[i] == character;
                assert(shorter[i] == character);
            }
        }
    }
}

/// The pieces of a text between the places of a character.
pub open spec fn split(text: Seq<char>, character: char) -> Seq<Seq<char>>
    decreases text.len(),
{
    let at = last_place(text, character);
    if 0 <= at < text.len() {
        split(text.take(at), character).push(text.skip(at + 1))
    } else {
        seq![text]
    }
}

/// A text without the character is one piece.
pub proof fn lemma_split_single(text: Seq<char>, character: char)
    requires
        !text.contains(character),
    ensures
        split(text, character) == seq![text],
{
    lemma_last_place(text, character);
}

/// A piece behind another text and the character is the last one.
pub proof fn lemma_split_behind(text: Seq<char>, character: char, piece: Seq<char>)
    requires
        !piece.contains(character),
    ensures
        split(text + seq![character] + piece, character) == split(text, character).push(piece),
{
    let whole = text + seq![character] + piece;
    lemma_last_place_behind(text, character, piece);
    assert(whole.take(text.len() as int) =~= text);
    assert(whole.skip(text.len() as int + 1) =~= piece);
}

pub(crate) proof fn lemma_last_place_behind(text: Seq<char>, character: char, piece: Seq<char>)
    requires
        !piece.contains(character),
    ensures
        last_place(text + seq![character] + piece, character) == text.len(),
    decreases piece.len(),
{
    let whole = text + seq![character] + piece;
    if piece.len() == 0 {
        assert(whole.last() == character);
    } else {
        assert(piece[piece.len() - 1] != character);
        assert(whole.last() == piece.last());
        let shorter = piece.drop_last();
        assert forall|i: int| 0 <= i < shorter.len() implies shorter[i] != character by {
            assert(piece[i] != character);
        }
        lemma_last_place_behind(text, character, shorter);
        assert(whole.drop_last() =~= text + seq![character] + shorter);
    }
}

/// The pieces of a text between the places of a character.
pub fn split_text(text: &str, character: char) -> (pieces: Vec<String>)
    ensures
        views(pieces@) == split(text@, character),
{
    let characters = chars_of(text);
    let mut pieces: Vec<String> = Vec::new();
    let mut current = String::new();
    let mut i: usize = 0;
    assert(text@.take(0) =~= Seq::<char>::empty());
    assert(split(text@.take(0), character) =~= seq![Seq::<char>::empty()]);
    assert(views(pieces@).push(current@) =~= seq![Seq::<char>::empty()]);
    while i < characters.len()
        invariant
            characters@ == text@,
            i <= characters.len(),
            views(pieces@).push(current@) == split(text@.take(i as int), character),
        decreases characters.len() - i,
    {
        let ghost before = text@.take(i as int);
        let ghost known = views(pieces@);
        let ghost last = current@;
        let ghost after = text@.take(i + 1);
        proof {
            assert(after.drop_last() =~= before);
            lemma_last_place(before, character);
            lemma_last_place(after, character);
        }
        if characters[i] == character {
            proof {
                assert(after.take(i as int) =~= before);
                assert(after.skip(i + 1) =~= Seq::empty());
            }
            pieces.push(current);
            current = String::new();
            assert(views(pieces@) =~= known.push(last));
        } else {
            proof {
                let at = last_place(before, character);
                assert(last_place(after, character) == at);
                assert(split(before, character).last() == last);
                if at >= 0 {
                    assert(after.take(at) =~= before.take(at));
                    assert(after.skip(at + 1) =~= before.skip(at + 1).push(characters@[i as int]));
                    assert(split(before, character).drop_last() =~= split(
                        before.take(at),
                        character,
                    ));
                } else {
                    assert(known =~= Seq::empty()) by {
                        assert(known.push(last).len() == 1);
                    }
                    assert(before == last);
                    assert(after =~= before.push(characters@[i as int]));
                }
                assert(known.push(last).drop_last() =~= known);
            }
            current.push(characters[i]);
            assert(views(pieces@).push(current@) =~= split(after, character));
        }
        i = i + 1;
    }
    assert(text@.take(i as int) =~= text@);
    let ghost known = views(pieces@);
    let ghost last = current@;
    pieces.push(current);
    assert(views(pieces@) =~= known.push(last));
    pieces
}

/// A character with the ASCII small letters made capital.
pub open spec fn ascii_upper(character: char) -> char {
    if 'a' <= character <= 'z' {
        (character as u32 - 32) as char
    } else {
        character
    }
}

/// A text with the ASCII small letters made capital.
pub open spec fn ascii_uppercase(text: Seq<char>) -> Seq<char> {
    text.map_values(|character: char| ascii_upper(character))
}

/// A text with the ASCII small letters made capital.
pub fn to_uppercase_ascii(text: &str) -> (large: String)
    ensures
        large@ == ascii_uppercase(text@),
{
    let characters = chars_of(text);
    let mut large = String::new();
    let mut i: usize = 0;
    while i < characters.len()
        invariant
            characters@ == text@,
            i <= characters.len(),
            large@ == ascii_uppercase(text@).take(i as int),
        decreases characters.len() - i,
    {
        let character = characters[i];
        let changed = if 'a' <= character && character <= 'z' {
            ((character as u8) - 32) as char
        } else {
            character
        };
        large.push(changed);
        assert(ascii_uppercase(text@).take(i + 1) =~= ascii_uppercase(text@).take(i as int).push(
            changed,
        ));
        i = i + 1;
    }
    assert(ascii_uppercase(text@).take(i as int) =~= ascii_uppercase(text@));
    large
}

} // verus!
