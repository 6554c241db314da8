//! The interpreter: executes a token sequence statement by statement.
//!
//! Each statement is recognised by looking ahead from the cursor, checked,
//! executed, and only then passed over. Printing is not done here: a `print`
//! statement hands out the value, and the caller sends it to its sink.

use crate::tokenizer::{
    is_decimal, lemma_lexed_numbers_are_decimal, let_word, lex, numbers_are_decimal, print_word,
    token_views, KeywordType, LiteralType, Token, TokenType, TokenView,
};
use vstd::hash_map::StringHashMap;
use vstd::prelude::*;
use vstd::string::StringExecFns;

verus! {

/// A typed value: what a variable holds, and what `print` hands out. The
/// text of a number is its decimal spelling, kept as written.
#[derive(Debug)]
pub struct Value {
    pub text: String,
    pub type_: LiteralType,
}

/// The mathematical value of a `Value`.
pub struct ValueView {
    pub text: Seq<char>,
    pub kind: LiteralType,
}

impl View for Value {
    type V = ValueView;

    open spec fn view(&self) -> ValueView {
        ValueView { text: self.text@, kind: self.type_ }
    }
}

impl Clone for Value {
    fn clone(&self) -> (r: Self)
        ensures
            r@ == self@,
    {
        Value { text: self.text.clone(), type_: self.type_ }
    }
}

/// Why a run stops before the end of the tokens.
#[derive(Debug, Clone, Copy, PartialEq, Eq, Structural)]
pub enum RunError {
    /// The tokens end in the middle of a statement.
    UnexpectedEnd,
    /// A statement is not closed by a semicolon.
    ExpectedSemicolon,
    /// The argument of `print(` is not followed by `)`.
    ExpectedCloseParen,
    /// A name at the start of a statement is not followed by `=`.
    ExpectedAssignment,
    /// An `=` is not followed by a literal.
    ExpectedLiteral,
    /// `let` is not followed by a name.
    ExpectedIdentifier,
    /// The name of a declaration is followed by neither `=` nor `:`.
    MalformedLet,
    /// `print` is followed by nothing it can print.
    MalformedPrint,
    /// A declared type is neither `string` nor `number`.
    UnknownType,
    /// A name is used that no declaration introduced.
    UnknownIdentifier,
    /// A literal has another type than the variable it is meant for.
    TypeMismatch { expected: LiteralType, found: LiteralType },
    /// `print` stands where a variable to assign to is expected.
    NotAssignable,
    /// A token that starts no statement.
    UnhandledToken,
}

/// The variables of a run: from a name to its value.
pub type Table = Map<Seq<char>, ValueView>;

/// What executing one statement comes to.
pub enum Step {
    /// The statement was executed: the cursor after it, the table after it,
    /// and what it printed, if it was a `print`.
    Advance { cursor: int, table: Table, output: Option<ValueView> },
    /// The statement was refused; nothing has changed.
    Fail { error: RunError },
}

/// The name of the type of strings.
pub open spec fn string_word() -> Seq<char> {
    seq!['s', 't', 'r', 'i', 'n', 'g']
}

/// The name of the type of numbers.
pub open spec fn number_word() -> Seq<char> {
    seq!['n', 'u', 'm', 'b', 'e', 'r']
}

/// The error, if any, of looking for a token of kind `kind` at position `k`.
pub open spec fn expect(ts: Seq<TokenView>, k: int, kind: TokenType, otherwise: RunError) -> Option<
    RunError,
> {
    if k >= ts.len() {
        Some(RunError::UnexpectedEnd)
    } else if ts[k].kind != kind {
        Some(otherwise)
    } else {
        None
    }
}

/// The type of the literal at position `k`, or the error of finding none.
pub open spec fn literal_type_at(ts: Seq<TokenView>, k: int) -> Result<LiteralType, RunError> {
    if k >= ts.len() {
        Err(RunError::UnexpectedEnd)
    } else {
        match ts[k].kind {
            TokenType::Literal(t) => Ok(t),
            _ => Err(RunError::ExpectedLiteral),
        }
    }
}

/// The type that a token names, if it names one.
pub open spec fn declared_type(t: TokenView) -> Option<LiteralType> {
    if t.kind == TokenType::Ident && t.text == string_word() {
        Some(LiteralType::String)
    } else if t.kind == TokenType::Ident && t.text == number_word() {
        Some(LiteralType::Number)
    } else {
        None
    }
}

/// What a variable of type `t` holds when it is declared without a value.
pub open spec fn zero_value(t: LiteralType) -> ValueView {
    match t {
        LiteralType::String => ValueView { text: Seq::empty(), kind: t },
        LiteralType::Number => ValueView { text: seq!['0'], kind: t },
    }
}

/// `let NAME = LITERAL ;` with `let` at position `i`.
pub open spec fn untyped_let(ts: Seq<TokenView>, i: int, m: Table) -> Step {
    match literal_type_at(ts, i + 3) {
        Err(error) => Step::Fail { error },
        Ok(t) => match expect(ts, i + 4, TokenType::Semicolon, RunError::ExpectedSemicolon) {
            Some(error) => Step::Fail { error },
            None => Step::Advance {
                cursor: i + 5,
                table: m.insert(ts[i + 1].text, ValueView { text: ts[i + 3].text, kind: t }),
                output: None,
            },
        },
    }
}

/// `let NAME : TYPE ;` or `let NAME : TYPE = LITERAL ;` with `let` at
/// position `i`.
pub open spec fn typed_let(ts: Seq<TokenView>, i: int, m: Table) -> Step {
    if i + 4 >= ts.len() {
        Step::Fail { error: RunError::UnexpectedEnd }
    } else if ts[i + 4].kind == TokenType::Assignment {
        match literal_type_at(ts, i + 5) {
            Err(error) => Step::Fail { error },
            Ok(found) => match declared_type(ts[i + 3]) {
                None => Step::Fail { error: RunError::UnknownType },
                Some(expected) => if found != expected {
                    Step::Fail { error: RunError::TypeMismatch { expected, found } }
                } else {
                    match expect(ts, i + 6, TokenType::Semicolon, RunError::ExpectedSemicolon) {
                        Some(error) => Step::Fail { error },
                        None => Step::Advance {
                            cursor: i + 7,
                            table: m.insert(
                                ts[i + 1].text,
                                ValueView { text: ts[i + 5].text, kind: expected },
                            ),
                            output: None,
                        },
                    }
                },
            },
        }
    } else {
        match declared_type(ts[i + 3]) {
            None => Step::Fail { error: RunError::UnknownType },
            Some(t) => if ts[i + 4].kind != TokenType::Semicolon {
                Step::Fail { error: RunError::ExpectedSemicolon }
            } else {
                Step::Advance {
                    cursor: i + 5,
                    table: m.insert(ts[i + 1].text, zero_value(t)),
                    output: None,
                }
            },
        }
    }
}

/// A declaration, with `let` at position `i`.
pub open spec fn let_statement(ts: Seq<TokenView>, i: int, m: Table) -> Step {
    match expect(ts, i + 1, TokenType::Ident, RunError::ExpectedIdentifier) {
        Some(error) => Step::Fail { error },
        None => if i + 2 >= ts.len() {
            Step::Fail { error: RunError::UnexpectedEnd }
        } else {
            match ts[i + 2].kind {
                TokenType::Assignment => untyped_let(ts, i, m),
                TokenType::Colon => typed_let(ts, i, m),
                _ => Step::Fail { error: RunError::MalformedLet },
            }
        },
    }
}

/// What the argument at position `k` of a `print(` stands for: the value of
/// a declared variable, or a literal.
pub open spec fn argument(ts: Seq<TokenView>, k: int, m: Table) -> Result<ValueView, RunError> {
    if k >= ts.len() {
        Err(RunError::UnexpectedEnd)
    } else {
        match ts[k].kind {
            TokenType::Ident => if m.contains_key(ts[k].text) {
                Ok(m[ts[k].text])
            } else {
                Err(RunError::UnknownIdentifier)
            },
            TokenType::Literal(t) => Ok(ValueView { text: ts[k].text, kind: t }),
            _ => Err(RunError::MalformedPrint),
        }
    }
}

/// `print ( ARGUMENT ) ;` or `print LITERAL ;` with `print` at position `i`.
pub open spec fn print_statement(ts: Seq<TokenView>, i: int, m: Table) -> Step {
    if i + 1 >= ts.len() {
        Step::Fail { error: RunError::UnexpectedEnd }
    } else {
        match ts[i + 1].kind {
            TokenType::OpenParen => match argument(ts, i + 2, m) {
                Err(error) => Step::Fail { error },
                Ok(v) => match expect(
                    ts,
                    i + 3,
                    TokenType::CloseParen,
                    RunError::ExpectedCloseParen,
                ) {
                    Some(error) => Step::Fail { error },
                    None => match expect(
                        ts,
                        i + 4,
                        TokenType::Semicolon,
                        RunError::ExpectedSemicolon,
                    ) {
                        Some(error) => Step::Fail { error },
                        None => Step::Advance { cursor: i + 5, table: m, output: Some(v) },
                    },
                },
            },
            TokenType::Literal(t) => match expect(
                ts,
                i + 2,
                TokenType::Semicolon,
                RunError::ExpectedSemicolon,
            ) {
                Some(error) => Step::Fail { error },
                None => Step::Advance {
                    cursor: i + 3,
                    table: m,
                    output: Some(ValueView { text: ts[i + 1].text, kind: t }),
                },
            },
            TokenType::Assignment => Step::Fail { error: RunError::NotAssignable },
            _ => Step::Fail { error: RunError::MalformedPrint },
        }
    }
}

/// `NAME = LITERAL ;` with the name at position `i`: the variable must
/// exist and have the literal's type; it keeps its type and gets the
/// literal's text.
pub open spec fn assign_statement(ts: Seq<TokenView>, i: int, m: Table) -> Step {
    match expect(ts, i + 1, TokenType::Assignment, RunError::ExpectedAssignment) {
        Some(error) => Step::Fail { error },
        None => match literal_type_at(ts, i + 2) {
            Err(error) => Step::Fail { error },
            Ok(found) => if !m.contains_key(ts[i].text) {
                Step::Fail { error: RunError::UnknownIdentifier }
            } else if m[ts[i].text].kind != found {
                Step::Fail {
                    error: RunError::TypeMismatch { expected: m[ts[i].text].kind, found },
                }
            } else {
                match expect(ts, i + 3, TokenType::Semicolon, RunError::ExpectedSemicolon) {
                    Some(error) => Step::Fail { error },
                    None => Step::Advance {
                        cursor: i + 4,
                        table: m.insert(ts[i].text, ValueView { text: ts[i + 2].text, kind: found }),
                        output: None,
                    },
                }
            },
        },
    }
}

/// The statement that starts at position `i`, executed against the table
/// `m`. At the end of the tokens there is nothing to do.
pub open spec fn statement(ts: Seq<TokenView>, i: int, m: Table) -> Step {
    if i < 0 || i >= ts.len() {
        Step::Advance { cursor: i, table: m, output: None }
    } else {
        match ts[i].kind {
            TokenType::Keyword(KeywordType::Let) => let_statement(ts, i, m),
            TokenType::Keyword(KeywordType::Print) => print_statement(ts, i, m),
            TokenType::Ident => if ts[i].text == print_word() {
                print_statement(ts, i, m)
            } else {
                assign_statement(ts, i, m)
            },
            TokenType::Semicolon => Step::Advance { cursor: i + 1, table: m, output: None },
            _ => Step::Fail { error: RunError::UnhandledToken },
        }
    }
}

/// How a run ends: what it printed, in order; the error that stopped it, if
/// one did; and the cursor and the table it leaves behind.
pub struct Trace {
    pub printed: Seq<ValueView>,
    pub error: Option<RunError>,
    pub cursor: int,
    pub table: Table,
}

/// `printed` with the output of one statement behind it.
pub open spec fn with_output(printed: Seq<ValueView>, output: Option<ValueView>) -> Seq<ValueView> {
    match output {
        Some(v) => printed.push(v),
        None => printed,
    }
}

/// The run from position `i` and table `m`, after `printed` was printed:
/// statement after statement up to the end of the tokens or the first error.
pub open spec fn run_from(ts: Seq<TokenView>, i: int, m: Table, printed: Seq<ValueView>) -> Trace
    decreases ts.len() - i,
{
    if i < 0 || i >= ts.len() {
        Trace { printed, error: None, cursor: i, table: m }
    } else {
        match statement(ts, i, m) {
            Step::Fail { error } => Trace { printed, error: Some(error), cursor: i, table: m },
            Step::Advance { cursor, table, output } => if i < cursor <= ts.len() {
                run_from(ts, cursor, table, with_output(printed, output))
            } else {
                Trace { printed, error: None, cursor: i, table: m }
            },
        }
    }
}

/// A statement that is executed ends after its start and within the tokens.
pub proof fn lemma_statement_advances(ts: Seq<TokenView>, i: int, m: Table)
    requires
        0 <= i < ts.len(),
    ensures
        match statement(ts, i, m) {
            Step::Advance { cursor, table, output } => i < cursor <= ts.len(),
            Step::Fail { error } => true,
        },
{
}

/// A run ends at or after its start. Where no statement is refused it ends
/// at the end of the tokens; where one is, at that statement.
pub proof fn lemma_run_cursor(ts: Seq<TokenView>, i: int, m: Table, printed: Seq<ValueView>)
    requires
        0 <= i <= ts.len(),
    ensures
        i <= run_from(ts, i, m, printed).cursor <= ts.len(),
        run_from(ts, i, m, printed).error is None ==> run_from(ts, i, m, printed).cursor
            == ts.len(),
        run_from(ts, i, m, printed).error is Some ==> statement(
            ts,
            run_from(ts, i, m, printed).cursor,
            run_from(ts, i, m, printed).table,
        ) == (Step::Fail { error: run_from(ts, i, m, printed).error->Some_0 }),
    decreases ts.len() - i,
{
    if i < ts.len() {
        lemma_statement_advances(ts, i, m);
        match statement(ts, i, m) {
            Step::Fail { error } => {},
            Step::Advance { cursor, table, output } => {
                lemma_run_cursor(ts, cursor, table, with_output(printed, output));
            },
        }
    }
}

/// What was printed stays printed: a run only adds to the output it started
/// with.
pub proof fn lemma_run_keeps_output(ts: Seq<TokenView>, i: int, m: Table, printed: Seq<ValueView>)
    requires
        0 <= i <= ts.len(),
    ensures
        printed.is_prefix_of(run_from(ts, i, m, printed).printed),
    decreases ts.len() - i,
{
    if i < ts.len() {
        lemma_statement_advances(ts, i, m);
        match statement(ts, i, m) {
            Step::Fail { error } => {},
            Step::Advance { cursor, table, output } => {
                lemma_run_keeps_output(ts, cursor, table, with_output(printed, output));
                assert(printed.is_prefix_of(with_output(printed, output)));
            },
        }
    }
}

/// Only a declaration or an assignment changes the table, and only a
/// `print` hands out a value.
pub proof fn lemma_statement_effects(ts: Seq<TokenView>, i: int, m: Table)
    requires
        0 <= i < ts.len(),
        statement(ts, i, m) is Advance,
    ensures
        statement(ts, i, m)->table != m ==> ts[i].kind == TokenType::Keyword(KeywordType::Let) || (
        ts[i].kind == TokenType::Ident && ts[i].text != print_word()),
        statement(ts, i, m)->output is Some ==> ts[i].kind == TokenType::Keyword(
            KeywordType::Print,
        ) || (ts[i].kind == TokenType::Ident && ts[i].text == print_word()),
{
}

/// An assignment that is executed declares nothing and changes no type: the
/// table has the names it had, each with the type it had, and only the text
/// of the assigned variable is new.
pub proof fn lemma_assignment_keeps_types(ts: Seq<TokenView>, i: int, m: Table)
    requires
        0 <= i < ts.len(),
        assign_statement(ts, i, m) is Advance,
    ensures
        m.contains_key(ts[i].text),
        assign_statement(ts, i, m)->table.dom() == m.dom(),
        forall|name: Seq<char>| #[trigger]
            m.contains_key(name) ==> assign_statement(ts, i, m)->table[name].kind == m[name].kind,
        forall|name: Seq<char>|
            #[trigger] m.contains_key(name) && name != ts[i].text ==> assign_statement(
                ts,
                i,
                m,
            )->table[name] == m[name],
        assign_statement(ts, i, m)->table[ts[i].text].text == ts[i + 2].text,
{
    assert(assign_statement(ts, i, m)->table.dom() =~= m.dom());
}

/// A value that, where it is a number, has a decimal spelling.
pub open spec fn is_sound(v: ValueView) -> bool {
    v.kind == LiteralType::Number ==> is_decimal(v.text)
}

/// Every variable of `m` holds a sound value.
pub open spec fn table_is_sound(m: Table) -> bool {
    forall|name: Seq<char>| m.contains_key(name) ==> is_sound(#[trigger] m[name])
}

/// Every value of `printed` is sound.
pub open spec fn output_is_sound(printed: Seq<ValueView>) -> bool {
    forall|k: int| 0 <= k < printed.len() ==> is_sound(#[trigger] printed[k])
}

/// Over tokens whose number literals are decimal, a statement keeps the
/// table sound and prints a sound value.
pub proof fn lemma_statement_keeps_sound(ts: Seq<TokenView>, i: int, m: Table)
    requires
        0 <= i < ts.len(),
        numbers_are_decimal(ts),
        table_is_sound(m),
    ensures
        match statement(ts, i, m) {
            Step::Advance { cursor, table, output } => table_is_sound(table) && (output is Some
                ==> is_sound(output->Some_0)),
            Step::Fail { error } => true,
        },
{
    assert(is_decimal(seq!['0'])) by {
        assert(seq!['0'][0] == '0');
    }
}

/// Over tokens whose number literals are decimal, as the scanner's are, a
/// run that starts sound stays sound: every number it prints or stores has
/// a decimal spelling, so the sink can always read it as a number.
pub proof fn lemma_run_keeps_sound(ts: Seq<TokenView>, i: int, m: Table, printed: Seq<ValueView>)
    requires
        0 <= i <= ts.len(),
        numbers_are_decimal(ts),
        table_is_sound(m),
        output_is_sound(printed),
    ensures
        table_is_sound(run_from(ts, i, m, printed).table),
        output_is_sound(run_from(ts, i, m, printed).printed),
    decreases ts.len() - i,
{
    if i < ts.len() {
        lemma_statement_advances(ts, i, m);
        lemma_statement_keeps_sound(ts, i, m);
        match statement(ts, i, m) {
            Step::Fail { error } => {},
            Step::Advance { cursor, table, output } => {
                lemma_run_keeps_sound(ts, cursor, table, with_output(printed, output));
            },
        }
    }
}

/// A program that the scanner accepts prints and stores decimal numbers
/// only, however far it runs: whatever it hands out as a number, the sink
/// can read as one.
pub proof fn lemma_scanned_program_is_sound(source: Seq<char>)
    requires
        lex(source) is Ok,
    ensures
        output_is_sound(
            run_from(lex(source)->Ok_0, 0, Map::empty(), Seq::empty()).printed,
        ),
        table_is_sound(run_from(lex(source)->Ok_0, 0, Map::empty(), Seq::empty()).table),
{
    lemma_lexed_numbers_are_decimal(source, 0, Seq::empty());
    lemma_run_keeps_sound(lex(source)->Ok_0, 0, Map::empty(), Seq::empty());
}

/// The tokens of `let NAME = LITERAL; print(NAME);`.
pub open spec fn declare_and_print(name: Seq<char>, literal: ValueView) -> Seq<TokenView> {
    seq![
        TokenView { kind: TokenType::Keyword(KeywordType::Let), text: let_word() },
        TokenView { kind: TokenType::Ident, text: name },
        TokenView { kind: TokenType::Assignment, text: seq!['='] },
        TokenView { kind: TokenType::Literal(literal.kind), text: literal.text },
        TokenView { kind: TokenType::Semicolon, text: seq![';'] },
        TokenView { kind: TokenType::Keyword(KeywordType::Print), text: print_word() },
        TokenView { kind: TokenType::OpenParen, text: seq!['('] },
        TokenView { kind: TokenType::Ident, text: name },
        TokenView { kind: TokenType::CloseParen, text: seq![')'] },
        TokenView { kind: TokenType::Semicolon, text: seq![';'] },
    ]
}

/// Printing a declared variable hands out the literal it was declared with,
/// text and type as written: a number reaches the sink in the spelling that
/// the source gave it, so what is shown is the sink's rendering of that
/// spelling and of nothing else.
pub proof fn lemma_declared_value_printed_as_written(
    name: Seq<char>,
    literal: ValueView,
    m: Table,
    printed: Seq<ValueView>,
)
    ensures
        run_from(declare_and_print(name, literal), 0, m, printed) == (Trace {
            printed: printed.push(literal),
            error: None,
            cursor: 10,
            table: m.insert(name, literal),
        }),
{
    let ts = declare_and_print(name, literal);
    let m1 = m.insert(name, literal);
    assert(statement(ts, 0, m) == (Step::Advance { cursor: 5, table: m1, output: None }));
    assert(statement(ts, 5, m1) == (Step::Advance {
        cursor: 10,
        table: m1,
        output: Some(literal),
    }));
    reveal_with_fuel(run_from, 3);
}

/// The values of a sequence of `Value`s, one for one.
pub open spec fn value_views(vs: Seq<Value>) -> Seq<ValueView> {
    Seq::new(vs.len(), |k: int| vs[k]@)
}

/// The value of what a statement handed out.
pub open spec fn output_view(output: Option<Value>) -> Option<ValueView> {
    match output {
        Some(v) => Some(v@),
        None => None,
    }
}

/// What a whole run comes to: the values printed, in order, and the error
/// that stopped it, if one did.
#[derive(Debug)]
pub struct Outcome {
    pub printed: Vec<Value>,
    pub error: Option<RunError>,
}

/// One run of one program: its tokens, a cursor into them, and its variables.
pub struct Interpreter {
    tokens: Vec<Token>,
    index: usize,
    mem: StringHashMap<Value>,
}

/// Whether the call of a statement that took `before` to `after` and
/// returned `r` did what `expected` says.
pub open spec fn stepped(
    before: Interpreter,
    after: Interpreter,
    r: Result<Option<Value>, RunError>,
    expected: Step,
) -> bool {
    &&& after.tokens() == before.tokens()
    &&& match r {
        Ok(output) => expected == (Step::Advance {
            cursor: after.cursor(),
            table: after.table(),
            output: output_view(output),
        }),
        Err(error) => {
            &&& expected == (Step::Fail { error })
            &&& after.cursor() == before.cursor()
            &&& after.table() == before.table()
        },
    }
}

impl Interpreter {
    /// The tokens of the program.
    pub closed spec fn tokens(&self) -> Seq<TokenView> {
        token_views(self.tokens@)
    }

    /// The position of the next statement.
    pub closed spec fn cursor(&self) -> int {
        self.index as int
    }

    /// The variables declared so far.
    pub closed spec fn table(&self) -> Table {
        Map::new(|k: Seq<char>| self.mem@.contains_key(k), |k: Seq<char>| self.mem@[k]@)
    }

    /// An interpreter at the start of `tokens`, with no variable declared.
    pub fn new(tokens: Vec<Token>) -> (r: Self)
        ensures
            r.tokens() == token_views(tokens@),
            r.cursor() == 0,
            r.table() == Map::<Seq<char>, ValueView>::empty(),
    {
        let r = Self { tokens, index: 0, mem: StringHashMap::new() };
        assert(r.table() =~= Map::<Seq<char>, ValueView>::empty());
        r
    }

    /// Whether the run has reached the end of the tokens.
    pub fn is_done(&self) -> (r: bool)
        ensures
            r == (self.cursor() >= self.tokens().len()),
    {
        self.index >= self.tokens.len()
    }

    /// The token `offset` places after the cursor, if there is one.
    pub fn peek(&self, offset: usize) -> (r: Option<&Token>)
        ensures
            match r {
                Some(t) => self.cursor() + offset < self.tokens().len() && t@
                    == self.tokens()[self.cursor() + offset],
                None => self.cursor() + offset >= self.tokens().len(),
            },
    {
        if self.index >= self.tokens.len() || offset >= self.tokens.len() - self.index {
            None
        } else {
            Some(&self.tokens[self.index + offset])
        }
    }

    /// Passes over one token.
    pub fn consume(&mut self)
        requires
            old(self).cursor() < old(self).tokens().len(),
        ensures
            final(self).tokens() == old(self).tokens(),
            final(self).table() == old(self).table(),
            final(self).cursor() == old(self).cursor() + 1,
    {
        proof {
            assert(self.tokens().len() == self.tokens.len());
        }
        self.index += 1;
    }

    /// Passes over `times` tokens.
    pub fn consume_times(&mut self, times: usize)
        requires
            old(self).cursor() + times <= old(self).tokens().len(),
        ensures
            final(self).tokens() == old(self).tokens(),
            final(self).table() == old(self).table(),
            final(self).cursor() == old(self).cursor() + times,
    {
        proof {
            assert(self.tokens().len() == self.tokens.len());
        }
        self.index += times;
    }

    /// The error, if any, of looking for a token of kind `kind` at `offset`.
    fn expect(&self, offset: usize, kind: TokenType, otherwise: RunError) -> (r: Option<RunError>)
        ensures
            r == expect(self.tokens(), self.cursor() + offset, kind, otherwise),
    {
        match self.peek(offset) {
            None => Some(RunError::UnexpectedEnd),
            Some(t) => if t.token_type != kind {
                Some(otherwise)
            } else {
                None
            },
        }
    }

    /// The type of the literal at `offset`, or the error of finding none.
    fn literal_type_at(&self, offset: usize) -> (r: Result<LiteralType, RunError>)
        ensures
            r == literal_type_at(self.tokens(), self.cursor() + offset),
    {
        match self.peek(offset) {
            None => Err(RunError::UnexpectedEnd),
            Some(t) => match t.token_type {
                TokenType::Literal(t) => Ok(t),
                _ => Err(RunError::ExpectedLiteral),
            },
        }
    }

    /// A copy of the spelling of the token `offset` places after the cursor.
    fn text_at(&self, offset: usize) -> (r: String)
        requires
            self.cursor() + offset < self.tokens().len(),
        ensures
            r@ == self.tokens()[self.cursor() + offset].text,
    {
        proof {
            assert(self.tokens().len() == self.tokens.len());
        }
        self.tokens[self.index + offset].value.clone()
    }

    /// The type that the token at `offset` names, if it names one.
    fn declared_type(&self, offset: usize) -> (r: Option<LiteralType>)
        requires
            self.cursor() + offset < self.tokens().len(),
        ensures
            r == declared_type(self.tokens()[self.cursor() + offset]),
    {
        proof {
            assert(self.tokens().len() == self.tokens.len());
        }
        let t = &self.tokens[self.index + offset];
        proof {
            reveal_strlit("string");
            reveal_strlit("number");
            assert("string"@ =~= string_word());
            assert("number"@ =~= number_word());
        }
        match t.token_type {
            TokenType::Ident => {
                if t.value == String::from_str("string") {
                    Some(LiteralType::String)
                } else if t.value == String::from_str("number") {
                    Some(LiteralType::Number)
                } else {
                    None
                }
            },
            _ => None,
        }
    }

    /// Whether the token at the cursor is spelled `print`.
    fn at_print_word(&self) -> (r: bool)
        requires
            self.cursor() < self.tokens().len(),
        ensures
            r == (self.tokens()[self.cursor()].text == print_word()),
    {
        proof {
            reveal_strlit("print");
            assert("print"@ =~= print_word());
        }
        self.tokens[self.index].value == String::from_str("print")
    }

    /// Binds `name` to `value`, whether or not it was bound before.
    fn bind(&mut self, name: String, value: Value)
        ensures
            final(self).tokens() == old(self).tokens(),
            final(self).cursor() == old(self).cursor(),
            final(self).table() == old(self).table().insert(name@, value@),
    {
        let ghost key = name@;
        let ghost val = value@;
        self.mem.insert(name, value);
        assert(self.table() =~= old(self).table().insert(key, val));
    }

    /// A copy of what `name` is bound to, if it is bound.
    fn lookup(&self, name: &str) -> (r: Option<Value>)
        ensures
            match r {
                Some(v) => self.table().contains_key(name@) && v@ == self.table()[name@],
                None => !self.table().contains_key(name@),
            },
    {
        match self.mem.get(name) {
            Some(v) => Some(v.clone()),
            None => None,
        }
    }

    /// Executes `let NAME = LITERAL ;` at the cursor.
    fn untyped_let(&mut self) -> (r: Result<Option<Value>, RunError>)
        requires
            old(self).cursor() + 2 < old(self).tokens().len(),
        ensures
            stepped(
                *old(self),
                *final(self),
                r,
                untyped_let(old(self).tokens(), old(self).cursor(), old(self).table()),
            ),
    {
        let type_ = match self.literal_type_at(3) {
            Err(e) => {
                return Err(e);
            },
            Ok(t) => t,
        };
        if let Some(e) = self.expect(4, TokenType::Semicolon, RunError::ExpectedSemicolon) {
            return Err(e);
        }
        let name = self.text_at(1);
        let text = self.text_at(3);
        self.bind(name, Value { text, type_ });
        self.consume_times(5);
        Ok(None)
    }

    /// Executes `let NAME : TYPE ;` or `let NAME : TYPE = LITERAL ;` at the cursor.
    fn typed_let(&mut self) -> (r: Result<Option<Value>, RunError>)
        requires
            old(self).cursor() + 2 < old(self).tokens().len(),
        ensures
            stepped(
                *old(self),
                *final(self),
                r,
                typed_let(old(self).tokens(), old(self).cursor(), old(self).table()),
            ),
    {
        let next = match self.peek(4) {
            None => {
                return Err(RunError::UnexpectedEnd);
            },
            Some(t) => t.token_type,
        };
        if next == TokenType::Assignment {
            let found = match self.literal_type_at(5) {
                Err(e) => {
                    return Err(e);
                },
                Ok(t) => t,
            };
            let expected = match self.declared_type(3) {
                None => {
                    return Err(RunError::UnknownType);
                },
                Some(t) => t,
            };
            if found != expected {
                return Err(RunError::TypeMismatch { expected, found });
            }
            if let Some(e) = self.expect(6, TokenType::Semicolon, RunError::ExpectedSemicolon) {
                return Err(e);
            }
            let name = self.text_at(1);
            let text = self.text_at(5);
            self.bind(name, Value { text, type_: expected });
            self.consume_times(7);
            Ok(None)
        } else {
            let type_ = match self.declared_type(3) {
                None => {
                    return Err(RunError::UnknownType);
                },
                Some(t) => t,
            };
            if next != TokenType::Semicolon {
                return Err(RunError::ExpectedSemicolon);
            }
            let name = self.text_at(1);
            let text = match type_ {
                LiteralType::String => String::new(),
                LiteralType::Number => {
                    proof {
                        reveal_strlit("0");
                        assert("0"@ =~= seq!['0']);
                    }
                    String::from_str("0")
                },
            };
            self.bind(name, Value { text, type_ });
            self.consume_times(5);
            Ok(None)
        }
    }

    /// Executes the declaration at the cursor.
    fn let_statement(&mut self) -> (r: Result<Option<Value>, RunError>)
        requires
            old(self).cursor() < old(self).tokens().len(),
        ensures
            stepped(
                *old(self),
                *final(self),
                r,
                let_statement(old(self).tokens(), old(self).cursor(), old(self).table()),
            ),
    {
        if let Some(e) = self.expect(1, TokenType::Ident, RunError::ExpectedIdentifier) {
            return Err(e);
        }
        let next = match self.peek(2) {
            None => {
                return Err(RunError::UnexpectedEnd);
            },
            Some(t) => t.token_type,
        };
        match next {
            TokenType::Assignment => self.untyped_let(),
            TokenType::Colon => self.typed_let(),
            _ => Err(RunError::MalformedLet),
        }
    }

    /// The value of the argument `offset` places after the cursor.
    fn argument(&self, offset: usize) -> (r: Result<Value, RunError>)
        ensures
            match r {
                Ok(v) => argument(self.tokens(), self.cursor() + offset, self.table()) == Ok::<
                    ValueView,
                    RunError,
                >(v@),
                Err(e) => argument(self.tokens(), self.cursor() + offset, self.table()) == Err::<
                    ValueView,
                    RunError,
                >(e),
            },
    {
        let t = match self.peek(offset) {
            None => {
                return Err(RunError::UnexpectedEnd);
            },
            Some(t) => t,
        };
        match t.token_type {
            TokenType::Ident => match self.lookup(t.value.as_str()) {
                Some(v) => Ok(v),
                None => Err(RunError::UnknownIdentifier),
            },
            TokenType::Literal(type_) => Ok(Value { text: t.value.clone(), type_ }),
            _ => Err(RunError::MalformedPrint),
        }
    }

    /// Executes the `print` at the cursor: checks it and hands out its value.
    fn print_statement(&mut self) -> (r: Result<Option<Value>, RunError>)
        requires
            old(self).cursor() < old(self).tokens().len(),
        ensures
            stepped(
                *old(self),
                *final(self),
                r,
                print_statement(old(self).tokens(), old(self).cursor(), old(self).table()),
            ),
    {
        let next = match self.peek(1) {
            None => {
                return Err(RunError::UnexpectedEnd);
            },
            Some(t) => t.token_type,
        };
        match next {
            TokenType::OpenParen => {
                let v = match self.argument(2) {
                    Err(e) => {
                        return Err(e);
                    },
                    Ok(v) => v,
                };
                if let Some(e) = self.expect(
                    3,
                    TokenType::CloseParen,
                    RunError::ExpectedCloseParen,
                ) {
                    return Err(e);
                }
                if let Some(e) = self.expect(4, TokenType::Semicolon, RunError::ExpectedSemicolon) {
                    return Err(e);
                }
                self.consume_times(5);
                Ok(Some(v))
            },
            TokenType::Literal(type_) => {
                if let Some(e) = self.expect(2, TokenType::Semicolon, RunError::ExpectedSemicolon) {
                    return Err(e);
                }
                let text = self.text_at(1);
                self.consume_times(3);
                Ok(Some(Value { text, type_ }))
            },
            TokenType::Assignment => Err(RunError::NotAssignable),
            _ => Err(RunError::MalformedPrint),
        }
    }

    /// Executes `NAME = LITERAL ;` at the cursor.
    fn assign_statement(&mut self) -> (r: Result<Option<Value>, RunError>)
        requires
            old(self).cursor() < old(self).tokens().len(),
        ensures
            stepped(
                *old(self),
                *final(self),
                r,
                assign_statement(old(self).tokens(), old(self).cursor(), old(self).table()),
            ),
    {
        if let Some(e) = self.expect(1, TokenType::Assignment, RunError::ExpectedAssignment) {
            return Err(e);
        }
        let found = match self.literal_type_at(2) {
            Err(e) => {
                return Err(e);
            },
            Ok(t) => t,
        };
        let name = self.text_at(0);
        let expected = match self.lookup(name.as_str()) {
            None => {
                return Err(RunError::UnknownIdentifier);
            },
            Some(v) => v.type_,
        };
        if expected != found {
            return Err(RunError::TypeMismatch { expected, found });
        }
        if let Some(e) = self.expect(3, TokenType::Semicolon, RunError::ExpectedSemicolon) {
            return Err(e);
        }
        let text = self.text_at(2);
        self.bind(name, Value { text, type_: found });
        self.consume_times(4);
        Ok(None)
    }

    /// Executes the statement at the cursor.
    ///
    /// On success the cursor stands behind the statement, the table holds
    /// what the statement declared or assigned, and the result is the value
    /// to print, if the statement was a `print`. On an error nothing has
    /// changed. At the end of the tokens nothing is done.
    pub fn step(&mut self) -> (r: Result<Option<Value>, RunError>)
        ensures
            stepped(
                *old(self),
                *final(self),
                r,
                statement(old(self).tokens(), old(self).cursor(), old(self).table()),
            ),
    {
        let kind = match self.peek(0) {
            None => {
                return Ok(None);
            },
            Some(t) => t.token_type,
        };
        match kind {
            TokenType::Keyword(KeywordType::Let) => self.let_statement(),
            TokenType::Keyword(KeywordType::Print) => self.print_statement(),
            TokenType::Ident => {
                if self.at_print_word() {
                    self.print_statement()
                } else {
                    self.assign_statement()
                }
            },
            TokenType::Semicolon => {
                self.consume();
                Ok(None)
            },
            _ => Err(RunError::UnhandledToken),
        }
    }

    /// Runs the program from the cursor to the end of the tokens, or to the
    /// first statement that is refused.
    ///
    /// The outcome holds what the statements printed, in their order, and
    /// the error that stopped the run, if one did. Afterwards the cursor
    /// stands at the end of the tokens, or at the statement that was refused.
    pub fn interpret(&mut self) -> (r: Outcome)
        ensures
            final(self).tokens() == old(self).tokens(),
            run_from(old(self).tokens(), old(self).cursor(), old(self).table(), Seq::empty()) == (
            Trace {
                printed: value_views(r.printed@),
                error: r.error,
                cursor: final(self).cursor(),
                table: final(self).table(),
            }),
    {
        let mut printed: Vec<Value> = Vec::new();
        assert(value_views(printed@) =~= Seq::<ValueView>::empty());
        while self.index < self.tokens.len()
            invariant
                self.tokens() == old(self).tokens(),
                run_from(old(self).tokens(), old(self).cursor(), old(self).table(), Seq::empty())
                    == run_from(
                    self.tokens(),
                    self.cursor(),
                    self.table(),
                    value_views(printed@),
                ),
            decreases self.tokens.len() - self.index,
        {
            proof {
                lemma_statement_advances(self.tokens(), self.cursor(), self.table());
            }
            let ghost before = printed@;
            match self.step() {
                Ok(output) => {
                    if let Some(v) = output {
                        printed.push(v);
                        assert(value_views(printed@) =~= value_views(before).push(v@));
                    }
                },
                Err(e) => {
                    return Outcome { printed, error: Some(e) };
                },
            }
        }
        Outcome { printed, error: None }
    }
}

} // verus!
