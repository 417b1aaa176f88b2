use asm_frontend::microcode::{keywords_from_microcode, split_lines};
use asm_frontend::tokenizer::{Keyword, StringTokenizer, TokenType};

fn keyword(opcode: u64, mnemonic: &str) -> StringTokenizer {
    StringTokenizer {
        string: mnemonic.to_string(),
        token: TokenType::Keyword(Keyword::Instruction(opcode, mnemonic.to_string())),
    }
}

fn lines(text: &str) -> Vec<String> {
    let chars: Vec<char> = text.chars().collect();
    split_lines(&chars)
        .into_iter()
        .map(|line| line.into_iter().collect())
        .collect()
}

#[test]
fn keyword_table_of_two_mnemonics() {
    assert_eq!(
        keywords_from_microcode("99\nadd\nsub\n"),
        vec![keyword(0, "add"), keyword(10, "sub")]
    );
}

#[test]
fn empty_description_has_no_keywords() {
    assert_eq!(keywords_from_microcode(""), vec![]);
    assert_eq!(keywords_from_microcode("1\n2\n3\n"), vec![]);
    assert_eq!(keywords_from_microcode("\n\n"), vec![]);
}

#[test]
fn blank_lines_leave_no_gap_in_the_opcodes() {
    assert_eq!(
        keywords_from_microcode("1\nadd\n\n\nsub\n\njmp"),
        vec![keyword(0, "add"), keyword(10, "sub"), keyword(20, "jmp")]
    );
}

#[test]
fn mnemonics_are_lower_cased() {
    assert_eq!(
        keywords_from_microcode("ADD\nSub\nj\u{c4}mp\n"),
        vec![keyword(0, "add"), keyword(10, "sub"), keyword(20, "j\u{e4}mp")]
    );
}

#[test]
fn preamble_ends_at_the_first_line_that_is_not_numeric() {
    assert_eq!(
        keywords_from_microcode("1\n22 bits\nadd\n3\nsub\n"),
        vec![keyword(0, "add"), keyword(10, "3"), keyword(20, "sub")]
    );
    assert_eq!(
        keywords_from_microcode("\n5\nadd"),
        vec![keyword(0, "5"), keyword(10, "add")]
    );
}

#[test]
fn preamble_lines_begin_with_any_numeric_character() {
    assert_eq!(
        keywords_from_microcode("\u{b2}\n\u{0663}\nadd\n"),
        vec![keyword(0, "add")]
    );
}

#[test]
fn line_of_spaces_is_a_mnemonic() {
    assert_eq!(keywords_from_microcode("add\n  \n"), vec![keyword(0, "add"), keyword(10, "  ")]);
}

#[test]
fn carriage_return_before_line_feed_is_no_part_of_the_line() {
    assert_eq!(
        keywords_from_microcode("9\r\nadd\r\nsub\r\n"),
        vec![keyword(0, "add"), keyword(10, "sub")]
    );
}

#[test]
fn opcodes_ascend_by_ten() {
    let tokenizers = keywords_from_microcode("0\na\nb\nc\nd\ne\nf\ng\nh\ni\nj\nk\nl\n");
    assert_eq!(tokenizers.len(), 12);
    for (index, tokenizer) in tokenizers.iter().enumerate() {
        match &tokenizer.token {
            TokenType::Keyword(Keyword::Instruction(opcode, mnemonic)) => {
                assert_eq!(*opcode, 10 * index as u64);
                assert_eq!(mnemonic, &tokenizer.string);
            }
            other => panic!("no instruction keyword: {:?}", other),
        }
    }
}

#[test]
fn same_description_gives_same_opcodes() {
    let text = "4\nlda\nsta\n\nhlt\n";
    assert_eq!(keywords_from_microcode(text), keywords_from_microcode(text));
}

#[test]
fn lines_end_at_line_feeds() {
    assert_eq!(lines("a\nb"), vec!["a", "b"]);
    assert_eq!(lines("a\nb\n"), vec!["a", "b"]);
    assert_eq!(lines("a\n\nb"), vec!["a", "", "b"]);
    assert_eq!(lines("\n"), vec![""]);
    assert_eq!(lines(""), Vec::<String>::new());
    assert_eq!(lines("abc"), vec!["abc"]);
}

#[test]
fn lines_lose_the_carriage_return_before_a_line_feed_only() {
    assert_eq!(lines("a\r\nb\r\n"), vec!["a", "b"]);
    assert_eq!(lines("a\rb\n"), vec!["a\rb"]);
    assert_eq!(lines("a\r"), vec!["a\r"]);
    assert_eq!(lines("\r\n"), vec![""]);
    assert_eq!(lines("a\r\r\n"), vec!["a\r"]);
}
