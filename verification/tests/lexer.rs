use cbasm::lexer::{lex, lex_line, lines, Token};
use cbasm::text::{chars_of, find, spells, split_from, string_of, trimmed, whitespace, Separator};

fn token(mnemonic: &str, raw_args: &[&str]) -> Token {
    Token {
        mnemonic: mnemonic.to_string(),
        raw_args: raw_args.iter().map(|a| a.to_string()).collect(),
    }
}

#[test]
fn chars_of_keeps_every_character() {
    assert_eq!(chars_of("a b"), vec!['a', ' ', 'b']);
    assert_eq!(chars_of(""), Vec::<char>::new());
    assert_eq!(chars_of("é\u{3000}"), vec!['é', '\u{3000}']);
}

#[test]
fn string_of_takes_a_range() {
    let chars = chars_of("[r0]");
    assert_eq!(string_of(&chars, 1, 3), "r0");
    assert_eq!(string_of(&chars, 0, 4), "[r0]");
    assert_eq!(string_of(&chars, 2, 2), "");
}

#[test]
fn spells_compares_whole_words() {
    assert!(spells(&chars_of("ADD"), "ADD"));
    assert!(!spells(&chars_of("ADD"), "ADDS"));
    assert!(!spells(&chars_of("ADDS"), "ADD"));
    assert!(!spells(&chars_of("add"), "ADD"));
    assert!(spells(&chars_of(""), ""));
    assert!(!spells(&chars_of(""), "A"));
}

#[test]
fn find_gives_first_separator_or_end() {
    let chars = chars_of("ab cd e");
    let space = Separator::Char(' ');
    assert_eq!(find(&chars, 0, 7, space), 2);
    assert_eq!(find(&chars, 3, 7, space), 5);
    assert_eq!(find(&chars, 6, 7, space), 7);
    assert_eq!(find(&chars, 2, 7, space), 2);
    assert_eq!(find(&chars, 0, 2, space), 2);
    assert_eq!(find(&chars, 4, 4, space), 4);
    assert_eq!(find(&chars, 0, 7, Separator::Char('d')), 4);
}

#[test]
fn find_stops_at_any_whitespace() {
    let chars = chars_of("ab\tcd\u{3000}e f");
    assert_eq!(find(&chars, 0, 9, Separator::Whitespace), 2);
    assert_eq!(find(&chars, 3, 9, Separator::Whitespace), 5);
    assert_eq!(find(&chars, 6, 9, Separator::Whitespace), 7);
    assert_eq!(find(&chars, 8, 9, Separator::Whitespace), 9);
    assert_eq!(find(&chars, 0, 9, Separator::Char(' ')), 7);
}

#[test]
fn whitespace_is_what_std_takes_for_whitespace() {
    for number in 0..=0x10ffffu32 {
        if let Some(c) = char::from_u32(number) {
            assert_eq!(whitespace(c), c.is_whitespace(), "U+{:04X}", number);
        }
    }
}

#[test]
fn whitespace_holds_twenty_five_characters() {
    let all: Vec<u32> = (0..=0x10ffffu32)
        .filter(|n| char::from_u32(*n).map_or(false, whitespace))
        .collect();
    assert_eq!(
        all,
        vec![
            0x09, 0x0a, 0x0b, 0x0c, 0x0d, 0x20, 0x85, 0xa0, 0x1680, 0x2000, 0x2001, 0x2002,
            0x2003, 0x2004, 0x2005, 0x2006, 0x2007, 0x2008, 0x2009, 0x200a, 0x2028, 0x2029,
            0x202f, 0x205f, 0x3000,
        ]
    );
}

#[test]
fn separator_matches_its_characters() {
    assert!(Separator::Char('\n').separates('\n'));
    assert!(!Separator::Char('\n').separates(' '));
    assert!(Separator::Whitespace.separates(' '));
    assert!(Separator::Whitespace.separates('\t'));
    assert!(Separator::Whitespace.separates('\n'));
    assert!(!Separator::Whitespace.separates('a'));
    assert!(!Separator::Whitespace.separates('\u{200b}'));
}

#[test]
fn trimmed_drops_whitespace_at_both_ends() {
    let chars = chars_of(" \t a b \r\n");
    assert_eq!(trimmed(&chars, 0, chars.len()), "a b");
    assert_eq!(trimmed(&chars, 0, 3), "");
    assert_eq!(trimmed(&chars, 3, 6), "a b");
    let wide = chars_of("\u{3000}x\u{a0}");
    assert_eq!(trimmed(&wide, 0, 3), "x");
}

#[test]
fn trimmed_agrees_with_str_trim() {
    for text in ["", " ", "a", "  a  ", "\ta b\n", "\u{2003}p q\u{85}", "x\u{200b}"] {
        let chars = chars_of(text);
        assert_eq!(trimmed(&chars, 0, chars.len()), text.trim());
    }
}

#[test]
fn split_keeps_empty_pieces() {
    let space = Separator::Char(' ');
    assert_eq!(split_from(&chars_of("a b"), 0, space), vec!["a", "b"]);
    assert_eq!(split_from(&chars_of("a  b"), 0, space), vec!["a", "", "b"]);
    assert_eq!(split_from(&chars_of(" a "), 0, space), vec!["", "a", ""]);
    assert_eq!(split_from(&chars_of(""), 0, space), vec![""]);
    assert_eq!(split_from(&chars_of("abc"), 1, space), vec!["bc"]);
    assert_eq!(split_from(&chars_of("abc"), 3, space), vec![""]);
}

#[test]
fn split_at_whitespace_cuts_at_each_such_character() {
    let cut = Separator::Whitespace;
    assert_eq!(split_from(&chars_of("a b\tc"), 0, cut), vec!["a", "b", "c"]);
    assert_eq!(split_from(&chars_of("a \tb"), 0, cut), vec!["a", "", "b"]);
    assert_eq!(split_from(&chars_of("a\u{a0}b\rc"), 0, cut), vec!["a", "b", "c"]);
    assert_eq!(split_from(&chars_of("abc"), 0, cut), vec!["abc"]);
    assert_eq!(split_from(&chars_of(""), 0, cut), vec![""]);
}

#[test]
fn split_agrees_with_str_split() {
    for text in ["", " ", "a", "a b c", "  a  ", "ADD [a] [a] 1", "x  y"] {
        let expected: Vec<String> = text.split(' ').map(|p| p.to_string()).collect();
        assert_eq!(split_from(&chars_of(text), 0, Separator::Char(' ')), expected);
        let words: Vec<String> = text.split(char::is_whitespace).map(|p| p.to_string()).collect();
        assert_eq!(split_from(&chars_of(text), 0, Separator::Whitespace), words);
    }
}

#[test]
fn lines_are_split_and_trimmed() {
    assert_eq!(
        lines("  ALLOC 10  \n\tFLUSH\r\n".to_string()),
        vec!["ALLOC 10", "FLUSH", ""]
    );
    assert_eq!(lines("".to_string()), vec![""]);
    assert_eq!(lines("\n".to_string()), vec!["", ""]);
    assert_eq!(lines("one".to_string()), vec!["one"]);
    assert_eq!(lines("a\n\n b".to_string()), vec!["a", "", "b"]);
}

#[test]
fn lex_line_cuts_at_spaces() {
    assert_eq!(
        lex_line("ADD [a] [a] 1".to_string()),
        token("ADD", &["[a]", "[a]", "1"])
    );
    assert_eq!(lex_line("FLUSH".to_string()), token("FLUSH", &[]));
    assert_eq!(lex_line("".to_string()), token("", &[]));
}

#[test]
fn lex_line_keeps_empty_words() {
    assert_eq!(lex_line("ADD  1".to_string()), token("ADD", &["", "1"]));
    assert_eq!(lex_line("ADD \t1".to_string()), token("ADD", &["", "1"]));
}

#[test]
fn lex_line_cuts_at_tabs() {
    assert_eq!(lex_line("ADD\t[a]\t1".to_string()), token("ADD", &["[a]", "1"]));
    assert_eq!(lex_line("ADD\t1".to_string()), token("ADD", &["1"]));
    assert_eq!(lex_line("JMP\u{a0};x".to_string()), token("JMP", &[";x"]));
}

#[test]
fn lex_line_makes_a_label_line_a_func() {
    assert_eq!(lex_line(":loop".to_string()), token("FUNC", &[":loop"]));
    assert_eq!(lex_line(":my label".to_string()), token("FUNC", &[":my label"]));
    assert_eq!(lex_line(":".to_string()), token("FUNC", &[":"]));
}

#[test]
fn lex_gives_one_token_for_each_line() {
    assert_eq!(
        lex("ALLOC 10\nSTORE [r0] 5\nFLUSH".to_string()),
        vec![
            token("ALLOC", &["10"]),
            token("STORE", &["[r0]", "5"]),
            token("FLUSH", &[]),
        ]
    );
}

#[test]
fn lex_skips_blank_lines() {
    assert_eq!(lex("".to_string()), Vec::<Token>::new());
    assert_eq!(lex("\n  \n\t\n".to_string()), Vec::<Token>::new());
    assert_eq!(
        lex("\nFLUSH\n\n   \nFLUSH\n".to_string()),
        vec![token("FLUSH", &[]), token("FLUSH", &[])]
    );
}

#[test]
fn lex_finds_the_label_sigil_behind_whitespace() {
    assert_eq!(
        lex("   :loop  \n  JMP ;loop".to_string()),
        vec![token("FUNC", &[":loop"]), token("JMP", &[";loop"])]
    );
}
