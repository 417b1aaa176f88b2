//! The instruction set, read from a microcode description.
//!
//! A description is a text of lines.  The lines at its head that begin with
//! a numeric character are a preamble and are passed over.  Of the lines that
//! follow, each one that is not empty names an instruction: its mnemonic is
//! the line in lower case, its opcode ten times its place among those lines,
//! counted from 0.
use vstd::prelude::*;
use crate::text::{char_is_numeric, is_numeric, lowercase, string_from_chars, to_lowercase};
use crate::token::{Keyword, KeywordKind, TokenKind, TokenType};
use crate::tokenizer::{line_start, StringTokenizer};
use vstd::slice::{slice_subrange, slice_to_vec};

verus! {

/// A line that ended in a line feed at offset `to`: the text from `from` up
/// to `to`, without the carriage return that may stand before the line feed.
pub open spec fn terminated_line(text: Seq<char>, from: int, to: int) -> Seq<char> {
    if from < to && text[to - 1] == '\r' {
        text.subrange(from, to - 1)
    } else {
        text.subrange(from, to)
    }
}

/// The lines of `text` that end in a line feed within its first `idx`
/// characters.
pub open spec fn lines_before(text: Seq<char>, idx: int) -> Seq<Seq<char>>
    decreases idx,
{
    if idx <= 0 || idx > text.len() {
        Seq::empty()
    } else if text[idx - 1] == '\n' {
        lines_before(text, idx - 1).push(
            terminated_line(text, line_start(text, idx - 1), idx - 1),
        )
    } else {
        lines_before(text, idx - 1)
    }
}

/// The lines of `text`.  A line ends in a line feed, or in a carriage return
/// and a line feed; what follows the last line feed is a line too, unless it
/// is empty.
pub open spec fn lines_of(text: Seq<char>) -> Seq<Seq<char>> {
    let whole = text.len() as int;
    if line_start(text, whole) < whole {
        lines_before(text, whole).push(text.subrange(line_start(text, whole), whole))
    } else {
        lines_before(text, whole)
    }
}

/// A line of the preamble: one whose first character is numeric.
pub open spec fn is_header_line(line: Seq<char>) -> bool {
    line.len() > 0 && is_numeric(line[0])
}

/// The index of the first line, from `at` on, that is no preamble line; the
/// number of lines, if there is none.
pub open spec fn header_end(lines: Seq<Seq<char>>, at: int) -> int
    decreases lines.len() - at,
{
    if 0 <= at < lines.len() && is_header_line(lines[at]) {
        header_end(lines, at + 1)
    } else {
        at
    }
}

/// The lines among `lines[lo..hi]` that are not empty, in order.
pub open spec fn kept_lines(lines: Seq<Seq<char>>, lo: int, hi: int) -> Seq<Seq<char>>
    decreases hi - lo,
{
    if hi <= lo {
        Seq::empty()
    } else if lines[hi - 1].len() > 0 {
        kept_lines(lines, lo, hi - 1).push(lines[hi - 1])
    } else {
        kept_lines(lines, lo, hi - 1)
    }
}

/// The mnemonics that a microcode description lists, in order.
pub open spec fn mnemonics(micro_code: Seq<char>) -> Seq<Seq<char>> {
    let lines = lines_of(micro_code);
    kept_lines(lines, header_end(lines, 0), lines.len() as int).map_values(
        |line: Seq<char>| lowercase(line),
    )
}

/// The instruction keyword for the mnemonic at place `index`.
pub open spec fn instruction_keyword(index: int, mnemonic: Seq<char>) -> TokenKind {
    TokenKind::Keyword(KeywordKind::Instruction((10 * index) as u64, mnemonic))
}

/// The opcode of an instruction keyword.
pub open spec fn opcode_of(kind: TokenKind) -> int {
    match kind {
        TokenKind::Keyword(KeywordKind::Instruction(opcode, _)) => opcode as int,
        _ => -1,
    }
}

/// The opcodes of the instruction keywords are multiples of ten and grow
/// with the place of the mnemonic, so no two are equal.
pub proof fn lemma_opcodes_ascend(micro_code: Seq<char>, first: int, second: int)
    requires
        10 * micro_code.len() <= u64::MAX,
        0 <= first < second < mnemonics(micro_code).len(),
    ensures
        opcode_of(instruction_keyword(first, mnemonics(micro_code)[first])) % 10 == 0,
        opcode_of(instruction_keyword(first, mnemonics(micro_code)[first])) < opcode_of(
            instruction_keyword(second, mnemonics(micro_code)[second]),
        ),
{
    lemma_mnemonics_count(micro_code);
}

/// A text has no more lines than characters, and no more mnemonics than
/// lines.
pub proof fn lemma_mnemonics_count(micro_code: Seq<char>)
    ensures
        mnemonics(micro_code).len() <= lines_of(micro_code).len() <= micro_code.len(),
{
    let lines = lines_of(micro_code);
    lemma_lines_before_count(micro_code, micro_code.len() as int);
    lemma_header_end(lines, 0);
    lemma_kept_count(lines, header_end(lines, 0), lines.len() as int);
}

proof fn lemma_lines_before_count(text: Seq<char>, idx: int)
    requires
        0 <= idx <= text.len(),
    ensures
        lines_before(text, idx).len() <= line_start(text, idx) <= idx,
    decreases idx,
{
    if idx > 0 {
        lemma_lines_before_count(text, idx - 1);
    }
}

proof fn lemma_header_end(lines: Seq<Seq<char>>, at: int)
    requires
        0 <= at <= lines.len(),
    ensures
        at <= header_end(lines, at) <= lines.len(),
    decreases lines.len() - at,
{
    if at < lines.len() && is_header_line(lines[at]) {
        lemma_header_end(lines, at + 1);
    }
}

proof fn lemma_kept_count(lines: Seq<Seq<char>>, lo: int, hi: int)
    requires
        lo <= hi,
    ensures
        kept_lines(lines, lo, hi).len() <= hi - lo,
    decreases hi - lo,
{
    if lo < hi {
        lemma_kept_count(lines, lo, hi - 1);
    }
}

/// The texts of a sequence of lines.
pub open spec fn line_views(lines: Seq<Vec<char>>) -> Seq<Seq<char>> {
    lines.map_values(|line: Vec<char>| line@)
}

/// Cuts `text` into its lines.
pub fn split_lines(text: &[char]) -> (lines: Vec<Vec<char>>)
    ensures
        line_views(lines@) == lines_of(text@),
{
    let mut lines: Vec<Vec<char>> = Vec::new();
    let mut start: usize = 0;
    let mut i: usize = 0;
    proof {
        assert(line_views(lines@) =~= lines_before(text@, 0));
    }
    while i < text.len()
        invariant
            i <= text@.len(),
            start == line_start(text@, i as int),
            start <= i,
            line_views(lines@) == lines_before(text@, i as int),
        decreases text@.len() - i,
    {
        if text[i] == '\n' {
            let end: usize = if start < i && text[i - 1] == '\r' {
                i - 1
            } else {
                i
            };
            let ghost before = line_views(lines@);
            let line = slice_to_vec(slice_subrange(text, start, end));
            lines.push(line);
            proof {
                assert(line@ == terminated_line(text@, start as int, i as int));
                assert(line_views(lines@) =~= before.push(line@));
            }
            start = i + 1;
        }
        i = i + 1;
    }
    if start < text.len() {
        let ghost before = line_views(lines@);
        let line = slice_to_vec(slice_subrange(text, start, text.len()));
        lines.push(line);
        proof {
            assert(line_views(lines@) =~= before.push(line@));
        }
    }
    lines
}

/// The literal tokenizers for the instructions of a microcode description,
/// one per mnemonic, in order: each matches its mnemonic and yields the
/// instruction keyword with the opcode of its place.
pub fn keywords_from_microcode(micro_code: &str) -> (tokenizers: Vec<StringTokenizer>)
    requires
        10 * micro_code@.len() <= u64::MAX,
    ensures
        tokenizers@.len() == mnemonics(micro_code@).len(),
        forall|k: int|
            0 <= k < tokenizers@.len() ==> {
                &&& (#[trigger] tokenizers@[k]).string@ == mnemonics(micro_code@)[k]
                &&& tokenizers@[k].token@ == instruction_keyword(k, mnemonics(micro_code@)[k])
            },
        forall|k: int|
            0 <= k < tokenizers@.len() ==> opcode_of(#[trigger] tokenizers@[k].token@) == 10 * k,
        forall|first: int, second: int|
            0 <= first < second < tokenizers@.len() ==> opcode_of(
                #[trigger] tokenizers@[first].token@,
            ) < opcode_of(#[trigger] tokenizers@[second].token@),
{
    let chars = crate::text::chars_of(micro_code);
    let lines = split_lines(chars.as_slice());
    let ghost texts = lines_of(micro_code@);
    proof {
        lemma_mnemonics_count(micro_code@);
        assert(line_views(lines@).len() == lines@.len());
    }
    let mut first: usize = 0;
    while first < lines.len() && lines[first].len() > 0 && char_is_numeric(lines[first][0])
        invariant
            first <= lines@.len(),
            line_views(lines@) == texts,
            header_end(texts, first as int) == header_end(texts, 0),
        decreases lines@.len() - first,
    {
        proof {
            assert(texts[first as int] == lines@[first as int]@);
        }
        first = first + 1;
    }
    proof {
        if first < lines@.len() {
            assert(texts[first as int] == lines@[first as int]@);
        }
    }
    let mut tokenizers: Vec<StringTokenizer> = Vec::new();
    let mut i: usize = first;
    while i < lines.len()
        invariant
            first <= i <= lines@.len(),
            line_views(lines@) == texts,
            10 * lines@.len() <= u64::MAX,
            tokenizers@.len() == kept_lines(texts, first as int, i as int).len(),
            tokenizers@.len() <= i - first,
            forall|k: int|
                0 <= k < tokenizers@.len() ==> {
                    &&& (#[trigger] tokenizers@[k]).string@ == lowercase(
                        kept_lines(texts, first as int, i as int)[k],
                    )
                    &&& tokenizers@[k].token@ == instruction_keyword(
                        k,
                        lowercase(kept_lines(texts, first as int, i as int)[k]),
                    )
                },
        decreases lines@.len() - i,
    {
        proof {
            assert(texts[i as int] == lines@[i as int]@);
        }
        if lines[i].len() > 0 {
            let line = string_from_chars(lines[i].as_slice());
            let mnemonic = to_lowercase(line.as_str());
            let opcode: u64 = (tokenizers.len() as u64) * 10;
            tokenizers.push(
                StringTokenizer {
                    string: mnemonic.clone(),
                    token: TokenType::Keyword(Keyword::Instruction(opcode, mnemonic)),
                },
            );
        }
        i = i + 1;
    }
    proof {
        assert forall|k: int| 0 <= k < tokenizers@.len() implies opcode_of(
            #[trigger] tokenizers@[k].token@,
        ) == 10 * k by {
            assert(tokenizers@[k].token@ == instruction_keyword(k, mnemonics(micro_code@)[k]));
        }
    }
    tokenizers
}

} // verus!
