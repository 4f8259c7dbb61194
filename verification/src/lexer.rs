//! The lexer: from source text to one token for each line that is not blank.

use vstd::prelude::*;
use vstd::string::StringExecFns;
use crate::text::{
    chars_of, find, lemma_split_len, split, split_from, trim, trimmed, Separator,
};

verus! {

/// One source line: the name of its instruction and its arguments as written.
#[derive(Debug, Clone, PartialEq, Eq)]
pub struct Token {
    pub mnemonic: String,
    pub raw_args: Vec<String>,
}

/// A token as plain text.
pub struct TokenView {
    pub mnemonic: Seq<char>,
    pub raw_args: Seq<Seq<char>>,
}

impl View for Token {
    type V = TokenView;

    open spec fn view(&self) -> TokenView {
        TokenView { mnemonic: self.mnemonic@, raw_args: self.raw_args.deep_view() }
    }
}

impl DeepView for Token {
    type V = TokenView;

    open spec fn deep_view(&self) -> TokenView {
        self@
    }
}

/// Each piece trimmed of the whitespace at its two ends.
pub open spec fn trim_each(pieces: Seq<Seq<char>>) -> Seq<Seq<char>> {
    Seq::new(pieces.len(), |i: int| trim(pieces[i]))
}

/// The lines of a source text, each trimmed. A text without a line feed is
/// one line; a line feed at the very end is followed by one more, empty line.
pub open spec fn lines_of(source: Seq<char>) -> Seq<Seq<char>> {
    trim_each(split(source, Separator::Char('\n')))
}

/// The token of one trimmed line. A line that starts with `:` defines a label:
/// its token is `FUNC` with the whole line as its one argument. Any other line
/// is cut at each character that is whitespace; the first word names the
/// instruction and the others are its arguments. Nothing is collapsed: two
/// such characters in a row hold an empty argument between them.
pub open spec fn token_of(line: Seq<char>) -> TokenView {
    if line.len() > 0 && line[0] == ':' {
        TokenView { mnemonic: "FUNC"@, raw_args: seq![line] }
    } else {
        let words = split(line, Separator::Whitespace);
        TokenView { mnemonic: words[0], raw_args: words.drop_first() }
    }
}

/// The tokens of the lines that are not empty, in order.
pub open spec fn tokens_of_lines(lines: Seq<Seq<char>>) -> Seq<TokenView>
    decreases lines.len(),
{
    if lines.len() == 0 {
        seq![]
    } else if lines.last().len() == 0 {
        tokens_of_lines(lines.drop_last())
    } else {
        tokens_of_lines(lines.drop_last()).push(token_of(lines.last()))
    }
}

/// The tokens of a source text: one for each line that is not blank.
pub open spec fn tokens_of(source: Seq<char>) -> Seq<TokenView> {
    tokens_of_lines(lines_of(source))
}

/// The lines of a source text, each trimmed.
pub fn lines(input: String) -> (out: Vec<String>)
    ensures
        out.deep_view() == lines_of(input@),
{
    let chars = chars_of(input.as_str());
    let mut out: Vec<String> = Vec::new();
    let mut start: usize = 0;
    assert(chars@.skip(0) == chars@);
    loop
        invariant_except_break
            start <= chars.len(),
            chars@ == input@,
            lines_of(input@) == out.deep_view() + trim_each(split(chars@.skip(start as int), Separator::Char('\n'))),
        ensures
            out.deep_view() == lines_of(input@),
        decreases chars.len() - start,
    {
        let ghost rest = chars@.skip(start as int);
        let ghost before = out.deep_view();
        assert(rest == chars@.subrange(start as int, chars.len() as int));
        let end = find(&chars, start, chars.len(), Separator::Char('\n'));
        let line = trimmed(&chars, start, end);
        assert(chars@.subrange(start as int, end as int) == rest.take(end - start));
        out.push(line);
        assert(out.deep_view() == before + seq![trim(rest.take(end - start))]);
        if end == chars.len() {
            assert(rest.take(end - start) == rest);
            assert(trim_each(seq![rest]) == seq![trim(rest)]);
            break;
        }
        assert(rest.skip(end - start + 1) == chars@.skip(end + 1));
        assert(trim_each(seq![rest.take(end - start)] + split(chars@.skip(end + 1), Separator::Char('\n')))
            == seq![trim(rest.take(end - start))] + trim_each(split(chars@.skip(end + 1), Separator::Char('\n'))));
        start = end + 1;
    }
    out
}

/// The token of one trimmed line.
pub fn lex_line(input: String) -> (token: Token)
    ensures
        token@ == token_of(input@),
{
    let chars = chars_of(input.as_str());
    if chars.len() > 0 && chars[0] == ':' {
        let mut raw_args: Vec<String> = Vec::new();
        raw_args.push(input);
        assert(raw_args.deep_view() == seq![input@]);
        return Token { mnemonic: String::from_str("FUNC"), raw_args };
    }
    assert(chars@.skip(0) == chars@);
    let mut words = split_from(&chars, 0, Separator::Whitespace);
    proof {
        lemma_split_len(chars@, Separator::Whitespace);
    }
    let ghost all = words.deep_view();
    let mnemonic = words.remove(0);
    assert(words.deep_view() == all.drop_first());
    Token { mnemonic, raw_args: words }
}

/// The tokens of a source text: one for each line that is not blank.
pub fn lex(input: String) -> (tokens: Vec<Token>)
    ensures
        tokens.deep_view() == tokens_of(input@),
{
    let all = lines(input);
    let mut tokens: Vec<Token> = Vec::new();
    let mut i: usize = 0;
    while i < all.len()
        invariant
            i <= all.len(),
            tokens.deep_view() == tokens_of_lines(all.deep_view().take(i as int)),
        decreases all.len() - i,
    {
        let ghost before = tokens.deep_view();
        assert(all.deep_view().take(i + 1).drop_last() == all.deep_view().take(i as int));
        assert(all.deep_view().take(i + 1).last() == all[i as int]@);
        let line = all[i].clone();
        if !line.as_str().is_empty() {
            let token = lex_line(line);
            tokens.push(token);
            assert(tokens.deep_view() == before.push(token@));
        }
        i += 1;
    }
    assert(all.deep_view().take(i as int) == all.deep_view());
    tokens
}

} // verus!
