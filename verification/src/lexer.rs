//! The scanner: it cuts the text of a script into tokens.

use crate::text::{
    as_number, chars_of, is_word_char, parse_number, string_from_range, trimmed, trimmed_string,
    whitespace, word_char,
};
use vstd::prelude::*;
use vstd::std_specs::cmp::PartialEqSpecImpl;

verus! {

/// One lexical unit of a script.
#[derive(Debug)]
pub enum Token {
    /// The keyword `input`.
    Input,
    /// The keyword `output`.
    Output,
    /// The keyword `transform`.
    Transform,
    /// The keyword `print`.
    Print,
    /// The text between two double quotes, escapes left as written.
    StringLiteral(String),
    /// A name that is no keyword and no number.
    Identifier(String),
    /// `@` and the name behind it: the first segment of a field path.
    Field(String),
    /// An unsigned decimal number.
    Number(usize),
    /// `+`
    Plus,
    /// `=`
    Equal,
    /// `;`
    Semicolon,
    /// `{`
    LBrace,
    /// `}`
    RBrace,
    /// `.`
    Dot,
    /// `(`
    LParen,
    /// `)`
    RParen,
    /// The text of a line or block comment, trimmed.
    Comment(String),
    /// A character that starts no token.
    Unknown(char),
    /// The end of the input.
    EOF,
}

/// The mathematical value of a [`Token`]: texts are sequences of characters.
pub enum TokenView {
    Input,
    Output,
    Transform,
    Print,
    StringLiteral(Seq<char>),
    Identifier(Seq<char>),
    Field(Seq<char>),
    Number(nat),
    Plus,
    Equal,
    Semicolon,
    LBrace,
    RBrace,
    Dot,
    LParen,
    RParen,
    Comment(Seq<char>),
    Unknown(char),
    EOF,
}

impl View for Token {
    type V = TokenView;

    open spec fn view(&self) -> TokenView {
        match self {
            Token::Input => TokenView::Input,
            Token::Output => TokenView::Output,
            Token::Transform => TokenView::Transform,
            Token::Print => TokenView::Print,
            Token::StringLiteral(s) => TokenView::StringLiteral(s@),
            Token::Identifier(s) => TokenView::Identifier(s@),
            Token::Field(s) => TokenView::Field(s@),
            Token::Number(n) => TokenView::Number(*n as nat),
            Token::Plus => TokenView::Plus,
            Token::Equal => TokenView::Equal,
            Token::Semicolon => TokenView::Semicolon,
            Token::LBrace => TokenView::LBrace,
            Token::RBrace => TokenView::RBrace,
            Token::Dot => TokenView::Dot,
            Token::LParen => TokenView::LParen,
            Token::RParen => TokenView::RParen,
            Token::Comment(s) => TokenView::Comment(s@),
            Token::Unknown(c) => TokenView::Unknown(*c),
            Token::EOF => TokenView::EOF,
        }
    }
}

impl DeepView for Token {
    type V = TokenView;

    open spec fn deep_view(&self) -> TokenView {
        self@
    }
}

impl Clone for Token {
    fn clone(&self) -> (copy: Self)
        ensures
            copy@ == self@,
    {
        match self {
            Token::Input => Token::Input,
            Token::Output => Token::Output,
            Token::Transform => Token::Transform,
            Token::Print => Token::Print,
            Token::StringLiteral(s) => Token::StringLiteral(s.clone()),
            Token::Identifier(s) => Token::Identifier(s.clone()),
            Token::Field(s) => Token::Field(s.clone()),
            Token::Number(n) => Token::Number(*n),
            Token::Plus => Token::Plus,
            Token::Equal => Token::Equal,
            Token::Semicolon => Token::Semicolon,
            Token::LBrace => Token::LBrace,
            Token::RBrace => Token::RBrace,
            Token::Dot => Token::Dot,
            Token::LParen => Token::LParen,
            Token::RParen => Token::RParen,
            Token::Comment(s) => Token::Comment(s.clone()),
            Token::Unknown(c) => Token::Unknown(*c),
            Token::EOF => Token::EOF,
        }
    }
}

impl PartialEq for Token {
    fn eq(&self, other: &Token) -> (same: bool) {
        match (self, other) {
            (Token::Input, Token::Input) => true,
            (Token::Output, Token::Output) => true,
            (Token::Transform, Token::Transform) => true,
            (Token::Print, Token::Print) => true,
            (Token::StringLiteral(a), Token::StringLiteral(b)) => *a == *b,
            (Token::Identifier(a), Token::Identifier(b)) => *a == *b,
            (Token::Field(a), Token::Field(b)) => *a == *b,
            (Token::Number(a), Token::Number(b)) => *a == *b,
            (Token::Plus, Token::Plus) => true,
            (Token::Equal, Token::Equal) => true,
            (Token::Semicolon, Token::Semicolon) => true,
            (Token::LBrace, Token::LBrace) => true,
            (Token::RBrace, Token::RBrace) => true,
            (Token::Dot, Token::Dot) => true,
            (Token::LParen, Token::LParen) => true,
            (Token::RParen, Token::RParen) => true,
            (Token::Comment(a), Token::Comment(b)) => *a == *b,
            (Token::Unknown(a), Token::Unknown(b)) => *a == *b,
            (Token::EOF, Token::EOF) => true,
            _ => false,
        }
    }
}

impl PartialEqSpecImpl for Token {
    open spec fn obeys_eq_spec() -> bool {
        true
    }

    open spec fn eq_spec(&self, other: &Token) -> bool {
        self@ == other@
    }
}

// ---------------------------------------------------------------------
// What the scanner finds
// ---------------------------------------------------------------------

/// A token and the position behind it.
pub struct Scanned {
    pub token: TokenView,
    pub end: int,
}

/// The index of the first `c` in `s` at or after `from`, or the length of
/// `s` if there is none.
pub open spec fn find_char(s: Seq<char>, from: int, c: char) -> int
    decreases s.len() - from,
{
    if 0 <= from < s.len() && s[from] != c {
        find_char(s, from + 1, c)
    } else {
        from
    }
}

/// The end of the longest run of name characters that starts at `from`.
pub open spec fn word_end(s: Seq<char>, from: int) -> int
    decreases s.len() - from,
{
    if 0 <= from < s.len() && is_word_char(s[from]) {
        word_end(s, from + 1)
    } else {
        from
    }
}

/// The index of the first `*` at or after `from` that has a `/` right
/// behind it, or the length of `s` if there is none.
pub open spec fn comment_close(s: Seq<char>, from: int) -> int
    decreases s.len() - from,
{
    if 0 <= from < s.len() {
        if s[from] == '*' && from + 1 < s.len() && s[from + 1] == '/' {
            from
        } else {
            comment_close(s, from + 1)
        }
    } else {
        from
    }
}

/// The token that a run of name characters spells: a keyword, else a
/// number if the run is one, else an identifier.
pub open spec fn word_token(word: Seq<char>) -> TokenView {
    if word == "input"@ {
        TokenView::Input
    } else if word == "output"@ {
        TokenView::Output
    } else if word == "transform"@ {
        TokenView::Transform
    } else if word == "print"@ {
        TokenView::Print
    } else {
        match as_number(word) {
            Some(n) => TokenView::Number(n),
            None => TokenView::Identifier(word),
        }
    }
}

/// The token of a single punctuation character.
pub open spec fn punctuation(c: char) -> Option<TokenView> {
    if c == '+' {
        Some(TokenView::Plus)
    } else if c == '=' {
        Some(TokenView::Equal)
    } else if c == ';' {
        Some(TokenView::Semicolon)
    } else if c == '{' {
        Some(TokenView::LBrace)
    } else if c == '}' {
        Some(TokenView::RBrace)
    } else if c == '.' {
        Some(TokenView::Dot)
    } else if c == '(' {
        Some(TokenView::LParen)
    } else if c == ')' {
        Some(TokenView::RParen)
    } else {
        None
    }
}

/// A string literal whose opening quote stands just before `from`: the
/// text up to the next quote, or to the end of the input where the quote
/// is missing.
pub open spec fn string_literal(s: Seq<char>, from: int) -> Scanned {
    let close = find_char(s, from, '"');
    Scanned {
        token: TokenView::StringLiteral(s.subrange(from, close)),
        end: if close < s.len() {
            close + 1
        } else {
            close
        },
    }
}

/// A line comment whose `//` stands just before `from`: the text up to
/// the end of the line, trimmed. The line break is not part of it.
pub open spec fn line_comment(s: Seq<char>, from: int) -> Scanned {
    let end = find_char(s, from, '\n');
    Scanned { token: TokenView::Comment(trimmed(s.subrange(from, end))), end }
}

/// A block comment whose `/*` stands just before `from`: the text up to
/// the next `*/`, or to the end of the input where that is missing,
/// trimmed.
pub open spec fn block_comment(s: Seq<char>, from: int) -> Scanned {
    let close = comment_close(s, from);
    Scanned {
        token: TokenView::Comment(trimmed(s.subrange(from, close))),
        end: if close < s.len() {
            close + 2
        } else {
            close
        },
    }
}

/// A field reference whose `@` stands just before `from`: the run of name
/// characters behind it, which may be empty.
pub open spec fn field_reference(s: Seq<char>, from: int) -> Scanned {
    let end = word_end(s, from);
    Scanned { token: TokenView::Field(s.subrange(from, end)), end }
}

/// A keyword, number or identifier whose first character, a name
/// character, stands at `start`.
pub open spec fn word(s: Seq<char>, start: int) -> Scanned {
    let end = word_end(s, start + 1);
    Scanned { token: word_token(s.subrange(start, end)), end }
}

/// The first token of `s` at or after `pos`, whitespace before it
/// skipped, and the position behind it; `EOF` where only whitespace is
/// left.
pub open spec fn scan(s: Seq<char>, pos: int) -> Scanned
    decreases s.len() - pos,
{
    if 0 <= pos < s.len() {
        let c = s[pos];
        if c == '/' {
            if pos + 1 < s.len() && s[pos + 1] == '/' {
                line_comment(s, pos + 2)
            } else if pos + 1 < s.len() && s[pos + 1] == '*' {
                block_comment(s, pos + 2)
            } else {
                Scanned { token: TokenView::Unknown(c), end: pos + 1 }
            }
        } else if c == '"' {
            string_literal(s, pos + 1)
        } else if c == '@' {
            field_reference(s, pos + 1)
        } else if punctuation(c) is Some {
            Scanned { token: punctuation(c)->0, end: pos + 1 }
        } else if whitespace(c) {
            scan(s, pos + 1)
        } else if is_word_char(c) {
            word(s, pos)
        } else {
            Scanned { token: TokenView::Unknown(c), end: pos + 1 }
        }
    } else {
        Scanned { token: TokenView::EOF, end: pos }
    }
}

/// All tokens of `s` from `pos` on, up to the end of the input.
pub open spec fn scan_all(s: Seq<char>, pos: int) -> Seq<TokenView>
    decreases s.len() - pos,
{
    let first = scan(s, pos);
    if first.token is EOF || !(0 <= pos <= s.len()) {
        Seq::empty()
    } else {
        proof {
            lemma_scan_end(s, pos);
        }
        seq![first.token] + scan_all(s, first.end)
    }
}

/// The tokens of a script.
pub open spec fn tokens_of(source: Seq<char>) -> Seq<TokenView> {
    scan_all(source, 0)
}

/// `find_char` gives the place of the first `c` at or after `from`:
/// within the input, with no `c` before it, and with `c` at it unless it
/// is the end of the input.
pub proof fn lemma_find_char_bounds(s: Seq<char>, from: int, c: char)
    requires
        0 <= from <= s.len(),
    ensures
        from <= find_char(s, from, c) <= s.len(),
        find_char(s, from, c) < s.len() ==> s[find_char(s, from, c)] == c,
        forall|i: int| from <= i < find_char(s, from, c) ==> (#[trigger] s[i]) != c,
    decreases s.len() - from,
{
    if from < s.len() && s[from] != c {
        lemma_find_char_bounds(s, from + 1, c);
    }
}

/// `word_end` gives the end of the longest run of name characters from
/// `from` on: all characters before it are name characters, and the one
/// at it, if there is one, is none.
pub proof fn lemma_word_end_bounds(s: Seq<char>, from: int)
    requires
        0 <= from <= s.len(),
    ensures
        from <= word_end(s, from) <= s.len(),
        forall|i: int| from <= i < word_end(s, from) ==> is_word_char(#[trigger] s[i]),
        word_end(s, from) < s.len() ==> !is_word_char(s[word_end(s, from)]),
    decreases s.len() - from,
{
    if from < s.len() && is_word_char(s[from]) {
        lemma_word_end_bounds(s, from + 1);
    }
}

/// `comment_close` gives the place of the first `*/` at or after `from`:
/// `*` and `/` stand there unless it is the end of the input, and at no
/// place before it.
pub proof fn lemma_comment_close_bounds(s: Seq<char>, from: int)
    requires
        0 <= from <= s.len(),
    ensures
        from <= comment_close(s, from) <= s.len(),
        comment_close(s, from) < s.len() ==> {
            &&& comment_close(s, from) + 2 <= s.len()
            &&& s[comment_close(s, from)] == '*'
            &&& s[comment_close(s, from) + 1] == '/'
        },
        forall|i: int|
            from <= i < comment_close(s, from) ==> !((#[trigger] s[i]) == '*' && i + 1 < s.len()
                && s[i + 1] == '/'),
    decreases s.len() - from,
{
    if from < s.len() {
        if !(s[from] == '*' && from + 1 < s.len() && s[from + 1] == '/') {
            lemma_comment_close_bounds(s, from + 1);
        }
    }
}

/// A token ends within the input, and behind where it starts unless it is
/// the end of the input.
pub proof fn lemma_scan_end(s: Seq<char>, pos: int)
    requires
        0 <= pos <= s.len(),
    ensures
        pos <= scan(s, pos).end <= s.len(),
        scan(s, pos).token is EOF ==> scan(s, pos).end == s.len(),
        !(scan(s, pos).token is EOF) ==> pos < scan(s, pos).end,
    decreases s.len() - pos,
{
    if pos < s.len() {
        let c = s[pos];
        lemma_find_char_bounds(s, pos + 1, '"');
        lemma_word_end_bounds(s, pos + 1);
        if pos + 1 < s.len() {
            lemma_find_char_bounds(s, pos + 2, '\n');
            lemma_comment_close_bounds(s, pos + 2);
        }
        if c != '/' && c != '"' && c != '@' && punctuation(c) is None && whitespace(c) {
            lemma_scan_end(s, pos + 1);
        }
    }
}

/// The tokens of a script never hold `EOF`: the end of the input ends
/// the sequence and is no part of it.
pub proof fn lemma_scan_all_without_eof(s: Seq<char>, pos: int)
    ensures
        forall|i: int| 0 <= i < scan_all(s, pos).len() ==> !((#[trigger] scan_all(s, pos)[i]) is EOF),
    decreases s.len() - pos,
{
    let first = scan(s, pos);
    if !(first.token is EOF) && 0 <= pos <= s.len() {
        lemma_scan_end(s, pos);
        lemma_scan_all_without_eof(s, first.end);
        let rest = scan_all(s, first.end);
        let all = seq![first.token] + rest;
        assert forall|i: int| 0 <= i < all.len() implies !((#[trigger] all[i]) is EOF) by {
            if i > 0 {
                assert(all[i] == rest[i - 1]);
            }
        }
    }
}

// ---------------------------------------------------------------------
// The scanner
// ---------------------------------------------------------------------

/// A scanner over the characters of a script.
pub struct Lexer {
    chars: Vec<char>,
    position: usize,
}

fn word_is(chars: &Vec<char>, from: usize, to: usize, name: &str) -> (same: bool)
    requires
        from <= to <= chars.len(),
    ensures
        same == (chars@.subrange(from as int, to as int) == name@),
{
    let word = string_from_range(chars, from, to);
    word == name.to_owned()
}

impl Lexer {
    #[verifier::type_invariant]
    spec fn within_input(&self) -> bool {
        self.position <= self.chars.len()
    }

    /// The characters of the script.
    pub closed spec fn source(&self) -> Seq<char> {
        self.chars@
    }

    /// The index of the next character to read.
    pub closed spec fn position(&self) -> int {
        self.position as int
    }

    /// A scanner at the start of `source`.
    pub fn new(source: &str) -> (lexer: Self)
        ensures
            lexer.source() == source@,
            lexer.position() == 0,
    {
        Self { chars: chars_of(source), position: 0 }
    }

    /// Takes the next character, if there is one.
    fn next_char(&mut self) -> (c: Option<char>)
        ensures
            final(self).source() == old(self).source(),
            0 <= old(self).position() <= old(self).source().len(),
            match c {
                Some(ch) => {
                    &&& old(self).position() < old(self).source().len()
                    &&& ch == old(self).source()[old(self).position()]
                    &&& final(self).position() == old(self).position() + 1
                },
                None => {
                    &&& old(self).position() == old(self).source().len()
                    &&& final(self).position() == old(self).position()
                },
            },
    {
        proof {
            use_type_invariant(&*self);
        }
        if self.position < self.chars.len() {
            let c = self.chars[self.position];
            self.position += 1;
            Some(c)
        } else {
            None
        }
    }

    /// Looks at the next character without taking it.
    fn peek_char(&self) -> (c: Option<char>)
        ensures
            0 <= self.position() <= self.source().len(),
            match c {
                Some(ch) => {
                    &&& self.position() < self.source().len()
                    &&& ch == self.source()[self.position()]
                },
                None => self.position() == self.source().len(),
            },
    {
        proof {
            use_type_invariant(self);
        }
        if self.position < self.chars.len() {
            Some(self.chars[self.position])
        } else {
            None
        }
    }

    /// Reads a string literal behind its opening quote.
    fn read_string(&mut self) -> (token: Token)
        ensures
            final(self).source() == old(self).source(),
            token@ == string_literal(old(self).source(), old(self).position()).token,
            final(self).position() == string_literal(
                old(self).source(),
                old(self).position(),
            ).end,
    {
        let ghost s = self.source();
        let start = self.position;
        let mut close = self.position;
        proof {
            use_type_invariant(&*self);
        }
        loop
            invariant_except_break
                find_char(s, start as int, '"') == find_char(s, self.position(), '"'),
            invariant
                self.source() == s,
                s == old(self).source(),
                start == old(self).position(),
                start <= self.position() <= s.len(),
            ensures
                start <= close <= s.len(),
                close == find_char(s, start as int, '"'),
                self.position() == string_literal(s, start as int).end,
            decreases s.len() - self.position(),
        {
            close = self.position;
            match self.next_char() {
                Some(c) => {
                    if c == '"' {
                        break ;
                    }
                },
                None => {
                    break ;
                },
            }
        }
        proof {
            use_type_invariant(&*self);
        }
        Token::StringLiteral(string_from_range(&self.chars, start, close))
    }

    fn skip_word(&mut self)
        ensures
            final(self).source() == old(self).source(),
            old(self).position() <= final(self).position() <= old(self).source().len(),
            final(self).position() == word_end(old(self).source(), old(self).position()),
    {
        let ghost s = self.source();
        let ghost start = self.position();
        proof {
            use_type_invariant(&*self);
        }
        loop
            invariant_except_break
                word_end(s, start) == word_end(s, self.position()),
            invariant
                self.source() == s,
                s == old(self).source(),
                start == old(self).position(),
                start <= self.position() <= s.len(),
            ensures
                self.position() == word_end(s, start),
            decreases s.len() - self.position(),
        {
            match self.peek_char() {
                Some(c) => {
                    if word_char(c) {
                        self.next_char();
                    } else {
                        break ;
                    }
                },
                None => {
                    break ;
                },
            }
        }
    }

    /// Reads the name of a field behind its `@`.
    fn read_field(&mut self) -> (token: Token)
        ensures
            final(self).source() == old(self).source(),
            token@ == field_reference(old(self).source(), old(self).position()).token,
            final(self).position() == field_reference(
                old(self).source(),
                old(self).position(),
            ).end,
    {
        let start = self.position;
        self.skip_word();
        Token::Field(string_from_range(&self.chars, start, self.position))
    }

    /// Reads a keyword, a number or an identifier whose first character
    /// stands at `start` and has been taken.
    fn read_identifier_or_number(&mut self, start: usize) -> (token: Token)
        requires
            start + 1 == old(self).position(),
        ensures
            final(self).source() == old(self).source(),
            token@ == word(old(self).source(), start as int).token,
            final(self).position() == word(old(self).source(), start as int).end,
    {
        self.skip_word();
        let end = self.position;
        proof {
            use_type_invariant(&*self);
        }
        if word_is(&self.chars, start, end, "input") {
            Token::Input
        } else if word_is(&self.chars, start, end, "output") {
            Token::Output
        } else if word_is(&self.chars, start, end, "transform") {
            Token::Transform
        } else if word_is(&self.chars, start, end, "print") {
            Token::Print
        } else {
            match parse_number(&self.chars, start, end) {
                Some(n) => Token::Number(n),
                None => Token::Identifier(string_from_range(&self.chars, start, end)),
            }
        }
    }

    /// Reads a line comment behind its `//`.
    fn read_line_comment(&mut self) -> (token: Token)
        ensures
            final(self).source() == old(self).source(),
            token@ == line_comment(old(self).source(), old(self).position()).token,
            final(self).position() == line_comment(old(self).source(), old(self).position()).end,
    {
        let ghost s = self.source();
        let start = self.position;
        proof {
            use_type_invariant(&*self);
        }
        loop
            invariant_except_break
                find_char(s, start as int, '\n') == find_char(s, self.position(), '\n'),
            invariant
                self.source() == s,
                s == old(self).source(),
                start == old(self).position(),
                start <= self.position() <= s.len(),
            ensures
                self.position() == find_char(s, start as int, '\n'),
            decreases s.len() - self.position(),
        {
            match self.peek_char() {
                Some(c) => {
                    if c == '\n' {
                        break ;
                    }
                    self.next_char();
                },
                None => {
                    break ;
                },
            }
        }
        proof {
            use_type_invariant(&*self);
        }
        Token::Comment(trimmed_string(&self.chars, start, self.position))
    }

    /// Reads a block comment behind its `/*`.
    fn read_block_comment(&mut self) -> (token: Token)
        ensures
            final(self).source() == old(self).source(),
            token@ == block_comment(old(self).source(), old(self).position()).token,
            final(self).position() == block_comment(
                old(self).source(),
                old(self).position(),
            ).end,
    {
        let ghost s = self.source();
        let start = self.position;
        let mut close = self.position;
        proof {
            use_type_invariant(&*self);
        }
        loop
            invariant_except_break
                comment_close(s, start as int) == comment_close(s, self.position()),
            invariant
                self.source() == s,
                s == old(self).source(),
                start == old(self).position(),
                start <= self.position() <= s.len(),
            ensures
                start <= close <= s.len(),
                close == comment_close(s, start as int),
                self.position() == block_comment(s, start as int).end,
            decreases s.len() - self.position(),
        {
            close = self.position;
            match self.next_char() {
                Some(c) => {
                    if c == '*' {
                        match self.peek_char() {
                            Some(next) => {
                                if next == '/' {
                                    self.next_char();
                                    break ;
                                }
                            },
                            None => {},
                        }
                    }
                },
                None => {
                    break ;
                },
            }
        }
        proof {
            use_type_invariant(&*self);
        }
        Token::Comment(trimmed_string(&self.chars, start, close))
    }

    /// Reads the next token, whitespace before it skipped; `EOF` at the
    /// end of the input.
    pub fn next_token(&mut self) -> (token: Token)
        ensures
            final(self).source() == old(self).source(),
            token@ == scan(old(self).source(), old(self).position()).token,
            final(self).position() == scan(old(self).source(), old(self).position()).end,
    {
        let ghost s = self.source();
        let ghost start = self.position();
        loop
            invariant
                self.source() == s,
                s == old(self).source(),
                start == old(self).position(),
                scan(s, start) == scan(s, self.position()),
            decreases s.len() - self.position(),
        {
            let here = self.position;
            let c = match self.next_char() {
                Some(c) => c,
                None => {
                    return Token::EOF;
                },
            };
            if c == '/' {
                match self.peek_char() {
                    Some('/') => {
                        self.next_char();
                        return self.read_line_comment();
                    },
                    Some('*') => {
                        self.next_char();
                        return self.read_block_comment();
                    },
                    _ => {
                        return Token::Unknown(c);
                    },
                }
            } else if c == '"' {
                return self.read_string();
            } else if c == '@' {
                return self.read_field();
            } else if c == '+' {
                return Token::Plus;
            } else if c == '=' {
                return Token::Equal;
            } else if c == ';' {
                return Token::Semicolon;
            } else if c == '{' {
                return Token::LBrace;
            } else if c == '}' {
                return Token::RBrace;
            } else if c == '.' {
                return Token::Dot;
            } else if c == '(' {
                return Token::LParen;
            } else if c == ')' {
                return Token::RParen;
            } else if c.is_whitespace() {
                continue ;
            } else if word_char(c) {
                return self.read_identifier_or_number(here);
            } else {
                return Token::Unknown(c);
            }
        }
    }

    /// Reads all tokens up to the end of the input. The result does not
    /// hold the final `EOF`.
    pub fn tokenize(&mut self) -> (tokens: Vec<Token>)
        ensures
            final(self).source() == old(self).source(),
            tokens.deep_view() == scan_all(old(self).source(), old(self).position()),
            final(self).position() == old(self).source().len(),
    {
        let ghost s = self.source();
        let ghost start = self.position();
        let mut tokens: Vec<Token> = Vec::new();
        proof {
            assert(tokens.deep_view() + scan_all(s, start) =~= scan_all(s, start));
        }
        loop
            invariant_except_break
                scan_all(s, start) == tokens.deep_view() + scan_all(s, self.position()),
            invariant
                self.source() == s,
                s == old(self).source(),
                start == old(self).position(),
            ensures
                scan_all(s, start) == tokens.deep_view(),
                self.position() == s.len(),
            decreases s.len() - self.position(),
        {
            let ghost here = self.position();
            let ghost done = tokens.deep_view();
            proof {
                use_type_invariant(&*self);
                lemma_scan_end(s, here);
                assert(done + Seq::<TokenView>::empty() =~= done);
            }
            let token = self.next_token();
            if token == Token::EOF {
                break ;
            }
            proof {
                assert(done + (seq![token@] + scan_all(s, self.position())) =~= done.push(token@)
                    + scan_all(s, self.position()));
            }
            tokens.push(token);
            proof {
                assert(tokens.deep_view() =~= done.push(token@));
            }
        }
        tokens
    }
}

} // verus!
