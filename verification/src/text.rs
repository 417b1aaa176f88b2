//! Characters and runs of characters: the vocabulary of the tokenizers.
//!
//! The tokenizers read a text as a sequence of `char`s.  The places that
//! the crate reports (the span of a token, the offset handed to the position
//! tracker) are byte offsets into the text as a `str`, that is into its
//! UTF-8 encoding.
use vstd::prelude::*;
use vstd::utf8::{encode_scalar, encode_utf8};

verus! {

/// Whether `c`, a character outside ASCII, has the Unicode `White_Space`
/// property.
pub uninterp spec fn unicode_whitespace(c: char) -> bool;

/// Whether `c`, a character outside ASCII, belongs to one of the Unicode
/// general categories for numbers.
pub uninterp spec fn unicode_numeric(c: char) -> bool;

/// The lower-case form of `text` under the Unicode default case mapping.
pub uninterp spec fn lowercase(text: Seq<char>) -> Seq<char>;

/// Whether `c` is white space: within ASCII the space and the characters
/// from the tabulator to the carriage return, outside ASCII what Unicode
/// says.
pub open spec fn is_whitespace(c: char) -> bool {
    if c <= '\u{7f}' {
        c == ' ' || ('\u{9}' <= c <= '\u{d}')
    } else {
        unicode_whitespace(c)
    }
}

/// Whether `c` is numeric: within ASCII the decimal digits, outside ASCII
/// what Unicode says.
pub open spec fn is_numeric(c: char) -> bool {
    if c <= '\u{7f}' {
        '0' <= c <= '9'
    } else {
        unicode_numeric(c)
    }
}

/// Calls `char::is_whitespace`.  Within ASCII it holds of the space and of
/// the characters from the tabulator to the carriage return; outside ASCII
/// the answer is a fixed property of `c`, named [`unicode_whitespace`].
#[verifier::external_body]
pub(crate) fn char_is_whitespace(c: char) -> (b: bool)
    ensures
        b == is_whitespace(c),
        c > '\u{7f}' ==> b == unicode_whitespace(c),
{
    c.is_whitespace()
}

/// Calls `char::is_numeric`.  Within ASCII it holds of the decimal digits;
/// outside ASCII the answer is a fixed property of `c`, named
/// [`unicode_numeric`].
#[verifier::external_body]
pub(crate) fn char_is_numeric(c: char) -> (b: bool)
    ensures
        b == is_numeric(c),
        c > '\u{7f}' ==> b == unicode_numeric(c),
{
    c.is_numeric()
}

/// Calls `str::to_lowercase`; the new string depends on the characters of
/// `text` alone and is named [`lowercase`].
#[verifier::external_body]
pub(crate) fn to_lowercase(text: &str) -> (lowered: String)
    ensures
        lowered@ == lowercase(text@),
{
    text.to_lowercase()
}

/// Calls `String::from_iter` on the characters of a slice: the string holds
/// exactly those characters, in order.
#[verifier::external_body]
pub(crate) fn string_from_chars(chars: &[char]) -> (text: String)
    ensures
        text@ == chars@,
{
    String::from_iter(chars)
}

/// The characters of `text`, in order.
pub fn chars_of(text: &str) -> (chars: Vec<char>)
    ensures
        chars@ == text@,
{
    let mut chars: Vec<char> = Vec::new();
    for c in it: text.chars()
        invariant
            chars@ == it.seq().take(it.index() as int),
            it.seq() == text@,
    {
        chars.push(c);
    }
    chars
}

/// An ASCII decimal digit.
pub open spec fn is_digit(c: char) -> bool {
    '0' <= c <= '9'
}

/// An ASCII letter.
pub open spec fn is_letter(c: char) -> bool {
    ('a' <= c <= 'z') || ('A' <= c <= 'Z')
}

/// The number a decimal digit stands for.
pub open spec fn digit_value(c: char) -> int {
    c as int - '0' as int
}

/// The sets of characters that the tokenizers scan runs of.
#[derive(Debug, Clone, Copy, PartialEq, Eq, Structural)]
pub enum CharClass {
    /// Unicode white space.
    Whitespace,
    /// ASCII decimal digits.
    Digit,
    /// ASCII letters and `_`: what a symbol may begin with.
    SymbolStart,
    /// ASCII letters, digits and `_`: what a symbol may continue with.
    SymbolPart,
    /// Everything but `"`.
    NotQuote,
    /// Everything but the line feed.
    NotNewline,
}

impl CharClass {
    /// Membership of `c` in the class.
    pub open spec fn contains(self, c: char) -> bool {
        match self {
            CharClass::Whitespace => is_whitespace(c),
            CharClass::Digit => is_digit(c),
            CharClass::SymbolStart => is_letter(c) || c == '_',
            CharClass::SymbolPart => is_letter(c) || is_digit(c) || c == '_',
            CharClass::NotQuote => c != '"',
            CharClass::NotNewline => c != '\n',
        }
    }

    /// Tests membership of `c` in the class.
    pub fn test(self, c: char) -> (b: bool)
        ensures
            b == self.contains(c),
    {
        match self {
            CharClass::Whitespace => char_is_whitespace(c),
            CharClass::Digit => '0' <= c && c <= '9',
            CharClass::SymbolStart => ('a' <= c && c <= 'z') || ('A' <= c && c <= 'Z') || c == '_',
            CharClass::SymbolPart => ('a' <= c && c <= 'z') || ('A' <= c && c <= 'Z') || ('0' <= c
                && c <= '9') || c == '_',
            CharClass::NotQuote => c != '"',
            CharClass::NotNewline => c != '\n',
        }
    }
}

/// Where the run of `class` characters that begins at `at` ends: the first
/// index from `at` on that holds a character outside the class, or the length
/// of the text.
pub open spec fn run_end(text: Seq<char>, at: int, class: CharClass) -> int
    decreases text.len() - at,
{
    if 0 <= at < text.len() && class.contains(text[at]) {
        run_end(text, at + 1, class)
    } else {
        at
    }
}

/// A run ends inside the text, holds only characters of its class, and is
/// followed by a character outside the class unless it reaches the end.
pub proof fn lemma_run_end(text: Seq<char>, at: int, class: CharClass)
    requires
        0 <= at <= text.len(),
    ensures
        at <= run_end(text, at, class) <= text.len(),
        forall|i: int| at <= i < run_end(text, at, class) ==> class.contains(#[trigger] text[i]),
        run_end(text, at, class) < text.len() ==> !class.contains(
            text[run_end(text, at, class)],
        ),
    decreases text.len() - at,
{
    if at < text.len() && class.contains(text[at]) {
        lemma_run_end(text, at + 1, class);
    }
}

/// Finds the end of the run of `class` characters that begins at `at`.
pub fn scan_run(text: &[char], at: usize, class: CharClass) -> (end: usize)
    requires
        at <= text@.len(),
    ensures
        end == run_end(text@, at as int, class),
        at <= end <= text@.len(),
{
    let mut end: usize = at;
    while end < text.len() && class.test(text[end])
        invariant
            at <= end <= text@.len(),
            run_end(text@, end as int, class) == run_end(text@, at as int, class),
        decreases text@.len() - end,
    {
        end = end + 1;
    }
    end
}

/// The number written by the decimal digits of `text` from `from` up to
/// `to`.
pub open spec fn decimal_value(text: Seq<char>, from: int, to: int) -> nat
    decreases to - from,
{
    if to <= from {
        0
    } else {
        (10 * decimal_value(text, from, to - 1) + digit_value(text[to - 1])) as nat
    }
}

/// Reading more digits never gives a smaller number.
pub proof fn lemma_decimal_value_grows(text: Seq<char>, from: int, mid: int, to: int)
    requires
        0 <= from <= mid <= to <= text.len(),
        forall|i: int| from <= i < to ==> is_digit(#[trigger] text[i]),
    ensures
        decimal_value(text, from, mid) <= decimal_value(text, from, to),
    decreases to - mid,
{
    if mid < to {
        lemma_decimal_value_grows(text, from, mid, to - 1);
        assert(is_digit(text[to - 1]));
    }
}

/// The number of bytes that `c` takes in UTF-8.
pub open spec fn utf8_width(c: char) -> int {
    encode_scalar(c as u32).len() as int
}

/// The number of bytes that `text` takes in UTF-8.
pub open spec fn byte_length(text: Seq<char>) -> int {
    encode_utf8(text).len() as int
}

/// `count` cut down to the range from 0 to the length of `text`.
pub open spec fn clamp(text: Seq<char>, count: int) -> int {
    if count <= 0 {
        0
    } else if count > text.len() {
        text.len() as int
    } else {
        count
    }
}

/// The byte offset of the character at index `count`: the number of bytes
/// that the first `count` characters of `text` take in UTF-8.
pub open spec fn bytes_before(text: Seq<char>, count: int) -> int {
    byte_length(text.take(clamp(text, count)))
}

/// The number of bytes that `c` takes in UTF-8.
pub fn char_width(c: char) -> (width: usize)
    ensures
        width == utf8_width(c),
        1 <= width <= 4,
{
    let code = c as u32;
    if code < 0x80 {
        1
    } else if code < 0x800 {
        2
    } else if code < 0x10000 {
        3
    } else {
        4
    }
}

/// A character takes from one to four bytes.
pub proof fn lemma_utf8_width(c: char)
    ensures
        1 <= utf8_width(c) <= 4,
{
}

/// One more character at the end takes its own bytes more.
pub proof fn lemma_byte_length_push(text: Seq<char>, c: char)
    ensures
        byte_length(text.push(c)) == byte_length(text) + utf8_width(c),
    decreases text.len(),
{
    let longer = text.push(c);
    if text.len() == 0 {
        assert(longer.drop_first() =~= Seq::<char>::empty());
        assert(encode_utf8(longer.drop_first()).len() == 0);
    } else {
        assert(longer.drop_first() =~= text.drop_first().push(c));
        lemma_byte_length_push(text.drop_first(), c);
    }
}

/// The byte offset of the next character is the byte offset of this one
/// plus the bytes that this one takes.
pub proof fn lemma_bytes_before_step(text: Seq<char>, count: int)
    requires
        0 <= count < text.len(),
    ensures
        bytes_before(text, count + 1) == bytes_before(text, count) + utf8_width(text[count]),
        bytes_before(text, count) < bytes_before(text, count + 1),
{
    assert(text.take(count + 1) =~= text.take(count).push(text[count]));
    lemma_byte_length_push(text.take(count), text[count]);
    lemma_utf8_width(text[count]);
}

/// Byte offsets grow with the index: a character that comes later begins
/// later, by at least as many bytes as characters lie between, and none
/// begins past the end of the text.
pub proof fn lemma_bytes_before_grows(text: Seq<char>, first: int, second: int)
    requires
        0 <= first <= second <= text.len(),
    ensures
        bytes_before(text, first) + (second - first) <= bytes_before(text, second),
        bytes_before(text, second) <= byte_length(text),
        bytes_before(text, 0) == 0,
        bytes_before(text, text.len() as int) == byte_length(text),
    decreases text.len() - first,
{
    assert(text.take(text.len() as int) =~= text);
    assert(text.take(0) =~= Seq::<char>::empty());
    if first < second {
        lemma_bytes_before_step(text, first);
        lemma_bytes_before_grows(text, first + 1, second);
    } else if second < text.len() {
        lemma_bytes_before_step(text, second);
        lemma_bytes_before_grows(text, second + 1, text.len() as int);
    }
}

/// The number of bytes that the characters of `text` from index `from` up
/// to index `to` take.
pub fn bytes_between(text: &[char], from: usize, to: usize) -> (width: usize)
    requires
        from <= to <= text@.len(),
        byte_length(text@) <= usize::MAX,
    ensures
        width == bytes_before(text@, to as int) - bytes_before(text@, from as int),
{
    let mut width: usize = 0;
    let mut i: usize = from;
    while i < to
        invariant
            from <= i <= to <= text@.len(),
            byte_length(text@) <= usize::MAX,
            width == bytes_before(text@, i as int) - bytes_before(text@, from as int),
        decreases to - i,
    {
        proof {
            lemma_bytes_before_step(text@, i as int);
            lemma_bytes_before_grows(text@, from as int, i as int);
            lemma_bytes_before_grows(text@, i + 1, text@.len() as int);
        }
        width = width + char_width(text[i]);
        i = i + 1;
    }
    width
}

} // verus!
