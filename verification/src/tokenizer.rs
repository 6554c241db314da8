//! The scanner: from source text to a sequence of tokens.

use crate::chars::{
    is_digit, is_letter, is_letter_or_digit, is_number_char, is_space, letter, letter_or_digit,
    number_char, push_char, space, to_chars,
};
use vstd::prelude::*;
use vstd::string::StringExecFns;

verus! {

/// The reserved words.
#[derive(Debug, Clone, Copy, PartialEq, Eq, Structural)]
pub enum KeywordType {
    Let,
    Print,
}

/// The two types a value can have.
#[derive(Debug, Clone, Copy, PartialEq, Eq, Structural)]
pub enum LiteralType {
    Number,
    String,
}

/// What a token is.
#[derive(Debug, Clone, Copy, PartialEq, Eq, Structural)]
pub enum TokenType {
    Assignment,
    Ident,
    Semicolon,
    OpenParen,
    CloseParen,
    Colon,
    Keyword(KeywordType),
    Literal(LiteralType),
}

/// Why a source text has no tokenization.
#[derive(Debug, Clone, Copy, PartialEq, Eq, Structural)]
pub enum LexError {
    /// A string literal is still open at the end of the text.
    UnterminatedString,
    /// A number literal holds a second decimal point.
    MultipleDecimalPoints,
    /// A character that starts no token.
    UnexpectedCharacter(char),
}

/// A token: its kind and its spelling. For a string literal the spelling is
/// the text between the quotes, for a number literal its decimal text.
#[derive(Debug)]
pub struct Token {
    pub token_type: TokenType,
    pub value: String,
}

/// The mathematical value of a token.
pub struct TokenView {
    pub kind: TokenType,
    pub text: Seq<char>,
}

impl View for Token {
    type V = TokenView;

    open spec fn view(&self) -> TokenView {
        TokenView { kind: self.token_type, text: self.value@ }
    }
}

impl Clone for Token {
    fn clone(&self) -> (r: Self)
        ensures
            r@ == self@,
    {
        Token { token_type: self.token_type, value: self.value.clone() }
    }
}

impl Token {
    /// A token of kind `token_type` spelled `value`.
    pub fn new(token_type: TokenType, value: String) -> (r: Self)
        ensures
            r.token_type == token_type,
            r.value == value,
    {
        Self { token_type, value }
    }
}

/// The values of a sequence of tokens, one for one.
pub open spec fn token_views(ts: Seq<Token>) -> Seq<TokenView> {
    Seq::new(ts.len(), |k: int| ts[k]@)
}

/// The stretches of characters that the scanner runs through in one go.
#[derive(Debug, Clone, Copy, PartialEq, Eq, Structural)]
pub enum Run {
    /// Letters and digits: the rest of an identifier.
    Name,
    /// Digits and decimal points: a number literal.
    Number,
    /// Anything but a line feed: a comment.
    Comment,
    /// Anything but a double quote: the inside of a string literal.
    Text,
}

impl Run {
    /// Whether the run goes on over `c`.
    pub open spec fn admits(self, c: char) -> bool {
        match self {
            Run::Name => is_letter_or_digit(c),
            Run::Number => is_number_char(c),
            Run::Comment => c != '\n',
            Run::Text => c != '"',
        }
    }

    /// Whether the run goes on over `c`.
    pub fn has(self, c: char) -> (r: bool)
        ensures
            r == self.admits(c),
    {
        match self {
            Run::Name => letter_or_digit(c),
            Run::Number => number_char(c),
            Run::Comment => c != '\n',
            Run::Text => c != '"',
        }
    }
}

/// Where a run that starts at `i` ends: the first position from `i` on whose
/// character the run does not admit, or the end of the text.
pub open spec fn run_end(s: Seq<char>, i: int, run: Run) -> int
    decreases s.len() - i,
{
    if 0 <= i < s.len() && run.admits(s[i]) {
        run_end(s, i + 1, run)
    } else {
        i
    }
}

/// Whether `word` stands in `s` at position `i`.
pub open spec fn spells(s: Seq<char>, i: int, word: Seq<char>) -> bool {
    0 <= i && i + word.len() <= s.len() && s.subrange(i, i + word.len()) == word
}

/// Whether two decimal points stand in `s` from `i` up to `j`.
pub open spec fn two_points(s: Seq<char>, i: int, j: int) -> bool {
    exists|a: int, b: int| i <= a < b < j && s[a] == '.' && s[b] == '.'
}

/// The spelling of the keyword `let`.
pub open spec fn let_word() -> Seq<char> {
    seq!['l', 'e', 't']
}

/// The spelling of the keyword `print`.
pub open spec fn print_word() -> Seq<char> {
    seq!['p', 'r', 'i', 'n', 't']
}

/// What the scanner finds at one position.
pub enum Scan {
    /// White space or a comment: nothing to emit, go on at `next`.
    Skip { next: int },
    /// A token, after which the scanner goes on at `next`.
    Emit { token: TokenView, next: int },
    /// No token can start or end here.
    Fail { error: LexError },
}

/// The token of one character `c` at position `i`.
pub open spec fn symbol(kind: TokenType, c: char, i: int) -> Scan {
    Scan::Emit { token: TokenView { kind, text: seq![c] }, next: i + 1 }
}

/// A string literal whose opening quote stands just before `i`: its text is
/// everything up to the next quote, taken as it is.
pub open spec fn string_body(s: Seq<char>, i: int) -> Scan {
    let j = run_end(s, i, Run::Text);
    if j >= s.len() {
        Scan::Fail { error: LexError::UnterminatedString }
    } else {
        Scan::Emit {
            token: TokenView {
                kind: TokenType::Literal(LiteralType::String),
                text: s.subrange(i, j),
            },
            next: j + 1,
        }
    }
}

/// A number literal that starts at `i`: the digits and points from there on,
/// with a `0` put before a leading point. A second point is an error.
pub open spec fn number_at(s: Seq<char>, i: int) -> Scan {
    let j = run_end(s, i, Run::Number);
    if two_points(s, i, j) {
        Scan::Fail { error: LexError::MultipleDecimalPoints }
    } else {
        Scan::Emit {
            token: TokenView {
                kind: TokenType::Literal(LiteralType::Number),
                text: if s[i] == '.' {
                    seq!['0'] + s.subrange(i, j)
                } else {
                    s.subrange(i, j)
                },
            },
            next: j,
        }
    }
}

/// What the scanner finds at position `i` of `s`, for `0 <= i < s.len()`.
/// A keyword is recognised wherever its letters stand, before an identifier is.
pub open spec fn scan(s: Seq<char>, i: int) -> Scan {
    let c = s[i];
    if is_space(c) {
        Scan::Skip { next: i + 1 }
    } else if c == '#' {
        Scan::Skip { next: run_end(s, i, Run::Comment) }
    } else if spells(s, i, let_word()) {
        Scan::Emit {
            token: TokenView { kind: TokenType::Keyword(KeywordType::Let), text: let_word() },
            next: i + 3,
        }
    } else if spells(s, i, print_word()) {
        Scan::Emit {
            token: TokenView { kind: TokenType::Keyword(KeywordType::Print), text: print_word() },
            next: i + 5,
        }
    } else if is_letter(c) {
        let j = run_end(s, i + 1, Run::Name);
        Scan::Emit { token: TokenView { kind: TokenType::Ident, text: s.subrange(i, j) }, next: j }
    } else if c == '=' {
        symbol(TokenType::Assignment, c, i)
    } else if c == ';' {
        symbol(TokenType::Semicolon, c, i)
    } else if c == '(' {
        symbol(TokenType::OpenParen, c, i)
    } else if c == ')' {
        symbol(TokenType::CloseParen, c, i)
    } else if c == ':' {
        symbol(TokenType::Colon, c, i)
    } else if c == '"' {
        string_body(s, i + 1)
    } else if is_number_char(c) {
        number_at(s, i)
    } else {
        Scan::Fail { error: LexError::UnexpectedCharacter(c) }
    }
}

/// The tokens of `s` from position `i` on, behind the tokens `done` that were
/// found before `i`; or the first error from `i` on.
pub open spec fn lex_from(s: Seq<char>, i: int, done: Seq<TokenView>) -> Result<
    Seq<TokenView>,
    LexError,
>
    decreases s.len() - i,
{
    if i < 0 || i >= s.len() {
        Ok(done)
    } else {
        match scan(s, i) {
            Scan::Skip { next } => if i < next <= s.len() {
                lex_from(s, next, done)
            } else {
                Ok(done)
            },
            Scan::Emit { token, next } => if i < next <= s.len() {
                lex_from(s, next, done.push(token))
            } else {
                Ok(done)
            },
            Scan::Fail { error } => Err(error),
        }
    }
}

/// The tokenization of a whole source text.
pub open spec fn lex(s: Seq<char>) -> Result<Seq<TokenView>, LexError> {
    lex_from(s, 0, Seq::empty())
}

/// A run ends at or after its start and within the text, it admits every
/// character it covers, and it does not admit the one it stops at.
pub proof fn lemma_run_end(s: Seq<char>, i: int, run: Run)
    requires
        0 <= i <= s.len(),
    ensures
        i <= run_end(s, i, run) <= s.len(),
        forall|k: int| i <= k < run_end(s, i, run) ==> run.admits(#[trigger] s[k]),
        run_end(s, i, run) < s.len() ==> !run.admits(s[run_end(s, i, run)]),
    decreases s.len() - i,
{
    if i < s.len() && run.admits(s[i]) {
        lemma_run_end(s, i + 1, run);
    }
}

/// Every position of a text yields a scan that moves forward and stays
/// within the text.
pub proof fn lemma_scan_advances(s: Seq<char>, i: int)
    requires
        0 <= i < s.len(),
    ensures
        match scan(s, i) {
            Scan::Skip { next } => i < next <= s.len(),
            Scan::Emit { token, next } => i < next <= s.len(),
            Scan::Fail { error } => true,
        },
{
    lemma_run_end(s, i, Run::Comment);
    lemma_run_end(s, i + 1, Run::Name);
    lemma_run_end(s, i + 1, Run::Text);
    lemma_run_end(s, i, Run::Number);
}

/// What a scan returned, as values: the tokens, or the error.
pub open spec fn scanned(r: Result<Vec<Token>, LexError>) -> Result<Seq<TokenView>, LexError> {
    match r {
        Ok(ts) => Ok(token_views(ts@)),
        Err(e) => Err(e),
    }
}

/// Scanning is a function of the text alone: whatever two scans of one text
/// return, by one scanner or by two, it is the same tokens or the same error.
pub proof fn lemma_rescan_same(
    source: Seq<char>,
    first: Result<Vec<Token>, LexError>,
    second: Result<Vec<Token>, LexError>,
)
    requires
        scanned(first) == lex(source),
        scanned(second) == lex(source),
    ensures
        scanned(first) == scanned(second),
        first is Ok <==> second is Ok,
        first is Ok ==> token_views(first->Ok_0@) == token_views(second->Ok_0@),
        first is Err ==> first->Err_0 == second->Err_0,
{
}

/// A comment yields no token: from a `#` the scanner goes on where the line
/// ends, with the tokens it had found before, whatever the comment holds.
pub proof fn lemma_comment_skipped(s: Seq<char>, i: int, done: Seq<TokenView>)
    requires
        0 <= i < s.len(),
        s[i] == '#',
    ensures
        i < run_end(s, i, Run::Comment) <= s.len(),
        forall|k: int| i <= k < run_end(s, i, Run::Comment) ==> #[trigger] s[k] != '\n',
        run_end(s, i, Run::Comment) < s.len() ==> s[run_end(s, i, Run::Comment)] == '\n',
        lex_from(s, i, done) == lex_from(s, run_end(s, i, Run::Comment), done),
{
    lemma_run_end(s, i, Run::Comment);
}

/// A decimal spelling: digits with at most one decimal point among them,
/// the first character a digit.
pub open spec fn is_decimal(t: Seq<char>) -> bool {
    &&& t.len() > 0
    &&& is_digit(t[0])
    &&& forall|k: int| 0 <= k < t.len() ==> is_number_char(#[trigger] t[k])
    &&& !two_points(t, 0, t.len() as int)
}

/// Every number literal among `ts` has a decimal spelling.
pub open spec fn numbers_are_decimal(ts: Seq<TokenView>) -> bool {
    forall|k: int|
        0 <= k < ts.len() && (#[trigger] ts[k]).kind == TokenType::Literal(LiteralType::Number)
            ==> is_decimal(ts[k].text)
}

/// The text of a number literal that the scanner accepts is a decimal
/// spelling, also where the source began it with a point.
pub proof fn lemma_number_is_decimal(s: Seq<char>, i: int)
    requires
        0 <= i < s.len(),
        is_number_char(s[i]),
    ensures
        match number_at(s, i) {
            Scan::Emit { token, next } => is_decimal(token.text),
            _ => true,
        },
{
    lemma_run_end(s, i, Run::Number);
    let j = run_end(s, i, Run::Number);
    if !two_points(s, i, j) {
        let body = s.subrange(i, j);
        let t = number_at(s, i)->token.text;
        if s[i] == '.' {
            assert(t == seq!['0'] + body);
            assert forall|k: int| 0 <= k < t.len() implies is_number_char(#[trigger] t[k]) by {
                if k > 0 {
                    assert(t[k] == s[i + k - 1]);
                }
            }
            if two_points(t, 0, t.len() as int) {
                let (a, b) = choose|a: int, b: int|
                    0 <= a < b < t.len() && t[a] == '.' && t[b] == '.';
                assert(t[a] == s[i + a - 1] && t[b] == s[i + b - 1]);
                assert(i <= i + a - 1 < i + b - 1 < j && s[i + a - 1] == '.' && s[i + b - 1]
                    == '.');
            }
        } else {
            assert(t == body);
            assert forall|k: int| 0 <= k < t.len() implies is_number_char(#[trigger] t[k]) by {
                assert(t[k] == s[i + k]);
            }
            if two_points(t, 0, t.len() as int) {
                let (a, b) = choose|a: int, b: int|
                    0 <= a < b < t.len() && t[a] == '.' && t[b] == '.';
                assert(i <= i + a < i + b < j && s[i + a] == '.' && s[i + b] == '.');
            }
        }
    }
}

/// Every number literal that the scanner hands out has a decimal spelling.
pub proof fn lemma_lexed_numbers_are_decimal(s: Seq<char>, i: int, done: Seq<TokenView>)
    requires
        numbers_are_decimal(done),
    ensures
        match lex_from(s, i, done) {
            Ok(ts) => numbers_are_decimal(ts),
            Err(e) => true,
        },
    decreases s.len() - i,
{
    if 0 <= i < s.len() {
        lemma_scan_advances(s, i);
        match scan(s, i) {
            Scan::Skip { next } => {
                lemma_lexed_numbers_are_decimal(s, next, done);
            },
            Scan::Emit { token, next } => {
                if token.kind == TokenType::Literal(LiteralType::Number) {
                    lemma_number_is_decimal(s, i);
                }
                lemma_lexed_numbers_are_decimal(s, next, done.push(token));
            },
            Scan::Fail { error } => {},
        }
    }
}

/// The literal of type `literal_type` at position `i`: for a string, `i` is
/// the position after the opening quote; for a number, that of its first
/// character.
pub open spec fn literal_at(s: Seq<char>, i: int, literal_type: LiteralType) -> Scan {
    match literal_type {
        LiteralType::String => string_body(s, i),
        LiteralType::Number => number_at(s, i),
    }
}

/// Adding a token at the end adds its value at the end.
pub proof fn lemma_views_push(ts: Seq<Token>, t: Token)
    ensures
        token_views(ts.push(t)) == token_views(ts).push(t@),
{
    assert(token_views(ts.push(t)) =~= token_views(ts).push(t@));
}

/// A scanner over one source text, with the position it has reached.
pub struct Tokenizer {
    text: Vec<char>,
    index: usize,
}

impl Tokenizer {
    /// The source text.
    pub closed spec fn source(&self) -> Seq<char> {
        self.text@
    }

    /// The position reached in the source text.
    pub closed spec fn position(&self) -> int {
        self.index as int
    }

    /// A scanner at the start of `text`.
    pub fn new(text: String) -> (r: Self)
        ensures
            r.source() == text@,
            r.position() == 0,
    {
        Self { text: to_chars(text.as_str()), index: 0 }
    }

    /// Takes the character at the position and moves one on.
    pub fn consume(&mut self) -> (c: char)
        requires
            old(self).position() < old(self).source().len(),
        ensures
            final(self).source() == old(self).source(),
            final(self).position() == old(self).position() + 1,
            c == old(self).source()[old(self).position()],
    {
        proof {
            assert(self.source().len() == self.text.len());
        }
        let cur = self.text[self.index];
        self.index += 1;
        cur
    }

    /// Moves `times` characters on.
    pub fn consume_times(&mut self, times: usize)
        requires
            old(self).position() + times <= old(self).source().len(),
        ensures
            final(self).source() == old(self).source(),
            final(self).position() == old(self).position() + times,
    {
        proof {
            assert(self.source().len() == self.text.len());
        }
        self.index += times;
    }

    /// The character `offset` places after the position, if the text goes that far.
    pub fn peek(&self, offset: usize) -> (r: Option<char>)
        ensures
            r == if self.position() + offset < self.source().len() {
                Some(self.source()[self.position() + offset])
            } else {
                None
            },
    {
        if self.index >= self.text.len() || offset >= self.text.len() - self.index {
            None
        } else {
            Some(self.text[self.index + offset])
        }
    }

    /// Whether `keyword` stands in the text at the position.
    pub fn spells_out(&self, keyword: &str) -> (r: bool)
        ensures
            r == spells(self.source(), self.position(), keyword@),
    {
        let n = keyword.unicode_len();
        if self.index > self.text.len() || n > self.text.len() - self.index {
            return false;
        }
        let ghost found = self.text@.subrange(self.index as int, self.index + n);
        let mut k: usize = 0;
        while k < n
            invariant
                k <= n,
                n == keyword@.len(),
                self.index + n <= self.text.len(),
                found == self.text@.subrange(self.index as int, self.index + n),
                forall|j: int| 0 <= j < k ==> found[j] == keyword@[j],
            decreases n - k,
        {
            let c = keyword.get_char(k);
            if self.text[self.index + k] != c {
                assert(found[k as int] != keyword@[k as int]);
                return false;
            }
            k += 1;
        }
        assert(found =~= keyword@);
        true
    }

    /// Moves to the end of the run that starts at the position.
    fn skip_run(&mut self, run: Run)
        ensures
            final(self).text@ == old(self).text@,
            final(self).index == run_end(old(self).text@, old(self).index as int, run),
    {
        while self.index < self.text.len() && run.has(self.text[self.index])
            invariant
                self.text@ == old(self).text@,
                run_end(self.text@, self.index as int, run) == run_end(
                    old(self).text@,
                    old(self).index as int,
                    run,
                ),
            decreases self.text.len() - self.index,
        {
            self.index += 1;
        }
    }

    /// Appends the characters of the text from `from` up to `to` to `builder`.
    fn copy_range(&self, from: usize, to: usize, builder: &mut String)
        requires
            from <= to <= self.text.len(),
        ensures
            final(builder)@ == old(builder)@ + self.text@.subrange(from as int, to as int),
    {
        let mut k: usize = from;
        while k < to
            invariant
                from <= k <= to <= self.text.len(),
                builder@ == old(builder)@ + self.text@.subrange(from as int, k as int),
            decreases to - k,
        {
            push_char(builder, self.text[k]);
            k += 1;
            assert(builder@ =~= old(builder)@ + self.text@.subrange(from as int, k as int));
        }
        assert(builder@ =~= old(builder)@ + self.text@.subrange(from as int, to as int));
    }

    /// Whether the text holds two decimal points from `from` up to `to`.
    fn has_two_points(&self, from: usize, to: usize) -> (r: bool)
        requires
            from <= to <= self.text.len(),
        ensures
            r == two_points(self.text@, from as int, to as int),
    {
        let mut seen = false;
        let mut k: usize = from;
        while k < to
            invariant
                from <= k <= to <= self.text.len(),
                seen <==> exists|a: int| from <= a < k && self.text@[a] == '.',
                !two_points(self.text@, from as int, k as int),
            decreases to - k,
        {
            if self.text[k] == '.' {
                if seen {
                    proof {
                        let a = choose|a: int| from <= a < k && self.text@[a] == '.';
                        assert(from <= a < k < to && self.text@[a] == '.' && self.text@[k as int]
                            == '.');
                    }
                    return true;
                }
                seen = true;
            }
            k += 1;
        }
        false
    }

    /// Scans the literal of type `literal_type` at the position: a string
    /// whose opening quote was consumed, or a number that starts here. On
    /// success the position is behind the literal; on an error it has not
    /// moved.
    fn create_literal(&mut self, literal_type: LiteralType) -> (r: Result<Token, LexError>)
        requires
            literal_type == LiteralType::Number ==> old(self).position() < old(
                self,
            ).source().len(),
        ensures
            final(self).source() == old(self).source(),
            match r {
                Ok(t) => literal_at(old(self).source(), old(self).position(), literal_type)
                    == (Scan::Emit { token: t@, next: final(self).position() }),
                Err(e) => {
                    &&& literal_at(old(self).source(), old(self).position(), literal_type)
                        == (Scan::Fail { error: e })
                    &&& final(self).position() == old(self).position()
                },
            },
    {
        let start = self.index;
        let mut builder = String::new();
        proof {
            if start <= self.text.len() {
                lemma_run_end(self.text@, start as int, Run::Text);
                lemma_run_end(self.text@, start as int, Run::Number);
            }
        }
        match literal_type {
            LiteralType::String => {
                self.skip_run(Run::Text);
                if self.index >= self.text.len() {
                    self.index = start;
                    return Err(LexError::UnterminatedString);
                }
                self.copy_range(start, self.index, &mut builder);
                assert(builder@ =~= self.text@.subrange(start as int, self.index as int));
                self.consume();
                Ok(Token::new(TokenType::Literal(LiteralType::String), builder))
            },
            LiteralType::Number => {
                self.skip_run(Run::Number);
                if self.has_two_points(start, self.index) {
                    self.index = start;
                    return Err(LexError::MultipleDecimalPoints);
                }
                if self.text[start] == '.' {
                    push_char(&mut builder, '0');
                    assert(builder@ =~= seq!['0']);
                } else {
                    assert(builder@ + self.text@.subrange(start as int, self.index as int)
                        =~= self.text@.subrange(start as int, self.index as int));
                }
                self.copy_range(start, self.index, &mut builder);
                Ok(Token::new(TokenType::Literal(LiteralType::Number), builder))
            },
        }
    }

    /// Scans the whole source text from its start.
    ///
    /// The result is the tokenization of the text, or its first error. It
    /// depends on the text alone, which the call leaves as it was, with the
    /// position back at its start: a second call gives the same result.
    pub fn tokenize(&mut self) -> (r: Result<Vec<Token>, LexError>)
        ensures
            final(self).source() == old(self).source(),
            final(self).position() == 0,
            scanned(r) == lex(old(self).source()),
    {
        let mut tokens: Vec<Token> = Vec::new();
        self.index = 0;
        assert(token_views(tokens@) =~= Seq::<TokenView>::empty());
        while self.index < self.text.len()
            invariant
                self.text@ == old(self).text@,
                lex(self.text@) == lex_from(self.text@, self.index as int, token_views(tokens@)),
            decreases self.text.len() - self.index,
        {
            let c = self.text[self.index];
            let ghost before = tokens@;
            proof {
                lemma_scan_advances(self.text@, self.index as int);
                reveal_strlit("let");
                reveal_strlit("print");
                assert("let"@ =~= let_word());
                assert("print"@ =~= print_word());
            }
            if space(c) {
                self.consume();
            } else if c == '#' {
                self.skip_run(Run::Comment);
            } else if self.spells_out("let") {
                tokens.push(Token::new(TokenType::Keyword(KeywordType::Let), String::from_str("let")));
                self.consume_times(3);
                proof {
                    lemma_views_push(before, tokens@.last());
                }
            } else if self.spells_out("print") {
                tokens.push(
                    Token::new(TokenType::Keyword(KeywordType::Print), String::from_str("print")),
                );
                self.consume_times(5);
                proof {
                    lemma_views_push(before, tokens@.last());
                }
            } else if letter(c) {
                let start = self.index;
                let mut builder = String::new();
                self.consume();
                self.skip_run(Run::Name);
                self.copy_range(start, self.index, &mut builder);
                assert(builder@ =~= self.text@.subrange(start as int, self.index as int));
                tokens.push(Token::new(TokenType::Ident, builder));
                proof {
                    lemma_views_push(before, tokens@.last());
                }
            } else if c == '=' || c == ';' || c == '(' || c == ')' || c == ':' {
                let kind = if c == '=' {
                    TokenType::Assignment
                } else if c == ';' {
                    TokenType::Semicolon
                } else if c == '(' {
                    TokenType::OpenParen
                } else if c == ')' {
                    TokenType::CloseParen
                } else {
                    TokenType::Colon
                };
                let mut builder = String::new();
                push_char(&mut builder, c);
                assert(builder@ =~= seq![c]);
                tokens.push(Token::new(kind, builder));
                self.consume();
                proof {
                    lemma_views_push(before, tokens@.last());
                }
            } else if c == '"' {
                self.consume();
                match self.create_literal(LiteralType::String) {
                    Ok(token) => {
                        tokens.push(token);
                        proof {
                            lemma_views_push(before, tokens@.last());
                        }
                    },
                    Err(e) => {
                        self.index = 0;
                        return Err(e);
                    },
                }
            } else if number_char(c) {
                match self.create_literal(LiteralType::Number) {
                    Ok(token) => {
                        tokens.push(token);
                        proof {
                            lemma_views_push(before, tokens@.last());
                        }
                    },
                    Err(e) => {
                        self.index = 0;
                        return Err(e);
                    },
                }
            } else {
                self.index = 0;
                return Err(LexError::UnexpectedCharacter(c));
            }
        }
        self.index = 0;
        Ok(tokens)
    }
}

} // verus!
