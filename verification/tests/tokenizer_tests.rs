use miniscript::tokenizer::{KeywordType, LexError, LiteralType, Token, TokenType, Tokenizer};

fn lex(source: &str) -> Result<Vec<(TokenType, String)>, LexError> {
    let mut tokenizer = Tokenizer::new(source.to_string());
    let tokens = tokenizer.tokenize()?;
    Ok(tokens.into_iter().map(|t| (t.token_type, t.value)).collect())
}

fn tok(kind: TokenType, text: &str) -> (TokenType, String) {
    (kind, text.to_string())
}

const LET: TokenType = TokenType::Keyword(KeywordType::Let);
const PRINT: TokenType = TokenType::Keyword(KeywordType::Print);
const STR: TokenType = TokenType::Literal(LiteralType::String);
const NUM: TokenType = TokenType::Literal(LiteralType::Number);

#[test]
fn empty_source_has_no_tokens() {
    assert_eq!(lex(""), Ok(vec![]));
}

#[test]
fn only_white_space_has_no_tokens() {
    assert_eq!(lex(" \t\r\n  \n"), Ok(vec![]));
}

#[test]
fn unicode_white_space_is_skipped() {
    assert_eq!(lex("\u{a0};\u{2003}\u{3000};"), Ok(vec![
        tok(TokenType::Semicolon, ";"),
        tok(TokenType::Semicolon, ";"),
    ]));
}

#[test]
fn untyped_declaration() {
    assert_eq!(
        lex("let x = \"hi\";"),
        Ok(vec![
            tok(LET, "let"),
            tok(TokenType::Ident, "x"),
            tok(TokenType::Assignment, "="),
            tok(STR, "hi"),
            tok(TokenType::Semicolon, ";"),
        ])
    );
}

#[test]
fn typed_declaration() {
    assert_eq!(
        lex("let x: number = 3.5;"),
        Ok(vec![
            tok(LET, "let"),
            tok(TokenType::Ident, "x"),
            tok(TokenType::Colon, ":"),
            tok(TokenType::Ident, "number"),
            tok(TokenType::Assignment, "="),
            tok(NUM, "3.5"),
            tok(TokenType::Semicolon, ";"),
        ])
    );
}

#[test]
fn print_with_parentheses() {
    assert_eq!(
        lex("print(x);"),
        Ok(vec![
            tok(PRINT, "print"),
            tok(TokenType::OpenParen, "("),
            tok(TokenType::Ident, "x"),
            tok(TokenType::CloseParen, ")"),
            tok(TokenType::Semicolon, ";"),
        ])
    );
}

#[test]
fn tokens_need_no_white_space_between_them() {
    assert_eq!(
        lex("x=1;y=\"a\";"),
        Ok(vec![
            tok(TokenType::Ident, "x"),
            tok(TokenType::Assignment, "="),
            tok(NUM, "1"),
            tok(TokenType::Semicolon, ";"),
            tok(TokenType::Ident, "y"),
            tok(TokenType::Assignment, "="),
            tok(STR, "a"),
            tok(TokenType::Semicolon, ";"),
        ])
    );
}

#[test]
fn keyword_wins_over_identifier() {
    assert_eq!(lex("letter"), Ok(vec![tok(LET, "let"), tok(TokenType::Ident, "ter")]));
    assert_eq!(lex("printer"), Ok(vec![tok(PRINT, "print"), tok(TokenType::Ident, "er")]));
}

#[test]
fn keyword_inside_identifier_is_not_split_off() {
    assert_eq!(lex("outlet"), Ok(vec![tok(TokenType::Ident, "outlet")]));
    assert_eq!(lex("le"), Ok(vec![tok(TokenType::Ident, "le")]));
    assert_eq!(lex("prin t"), Ok(vec![tok(TokenType::Ident, "prin"), tok(TokenType::Ident, "t")]));
}

#[test]
fn identifiers_are_case_sensitive_and_greedy() {
    assert_eq!(
        lex("Let abc123 a1b2"),
        Ok(vec![
            tok(TokenType::Ident, "Let"),
            tok(TokenType::Ident, "abc123"),
            tok(TokenType::Ident, "a1b2"),
        ])
    );
}

#[test]
fn identifier_stops_at_first_other_character() {
    assert_eq!(lex("ab;"), Ok(vec![tok(TokenType::Ident, "ab"), tok(TokenType::Semicolon, ";")]));
    assert_eq!(lex("ab_c"), Err(LexError::UnexpectedCharacter('_')));
}

#[test]
fn digits_then_letters_are_two_tokens() {
    assert_eq!(lex("12ab"), Ok(vec![tok(NUM, "12"), tok(TokenType::Ident, "ab")]));
}

#[test]
fn string_text_is_taken_verbatim() {
    assert_eq!(lex("\"a b\\n#c;\""), Ok(vec![tok(STR, "a b\\n#c;")]));
    assert_eq!(lex("\"let print\""), Ok(vec![tok(STR, "let print")]));
    assert_eq!(lex("\"h\u{e9}llo\" ;"), Ok(vec![tok(STR, "h\u{e9}llo"), tok(TokenType::Semicolon, ";")]));
}

#[test]
fn empty_string_literal() {
    assert_eq!(lex("\"\""), Ok(vec![tok(STR, "")]));
    assert_eq!(lex("\"\"\"\""), Ok(vec![tok(STR, ""), tok(STR, "")]));
}

#[test]
fn unterminated_string_is_an_error() {
    assert_eq!(lex("let x = \"abc"), Err(LexError::UnterminatedString));
    assert_eq!(lex("\""), Err(LexError::UnterminatedString));
    assert_eq!(lex("\"abc\" \"def"), Err(LexError::UnterminatedString));
}

#[test]
fn number_literals() {
    assert_eq!(lex("0"), Ok(vec![tok(NUM, "0")]));
    assert_eq!(lex("42"), Ok(vec![tok(NUM, "42")]));
    assert_eq!(lex("3.50"), Ok(vec![tok(NUM, "3.50")]));
    assert_eq!(lex("7."), Ok(vec![tok(NUM, "7.")]));
    assert_eq!(lex("007 8"), Ok(vec![tok(NUM, "007"), tok(NUM, "8")]));
}

#[test]
fn leading_point_gets_a_zero() {
    assert_eq!(lex(".5"), Ok(vec![tok(NUM, "0.5")]));
    assert_eq!(lex("."), Ok(vec![tok(NUM, "0.")]));
    assert_eq!(lex("x=.25;"), Ok(vec![
        tok(TokenType::Ident, "x"),
        tok(TokenType::Assignment, "="),
        tok(NUM, "0.25"),
        tok(TokenType::Semicolon, ";"),
    ]));
}

#[test]
fn second_decimal_point_is_an_error() {
    assert_eq!(lex("1.2.3"), Err(LexError::MultipleDecimalPoints));
    assert_eq!(lex("1..2"), Err(LexError::MultipleDecimalPoints));
    assert_eq!(lex(".5.5"), Err(LexError::MultipleDecimalPoints));
    assert_eq!(lex(".."), Err(LexError::MultipleDecimalPoints));
    assert_eq!(lex("let x = 1.2.;"), Err(LexError::MultipleDecimalPoints));
}

#[test]
fn points_in_separate_literals_are_fine() {
    assert_eq!(lex("1.5 2.5"), Ok(vec![tok(NUM, "1.5"), tok(NUM, "2.5")]));
}

#[test]
fn unexpected_character_is_reported() {
    assert_eq!(lex("let x = @;"), Err(LexError::UnexpectedCharacter('@')));
    assert_eq!(lex("+"), Err(LexError::UnexpectedCharacter('+')));
    assert_eq!(lex("x = 1 - 2"), Err(LexError::UnexpectedCharacter('-')));
    assert_eq!(lex("\u{e9}"), Err(LexError::UnexpectedCharacter('\u{e9}')));
}

#[test]
fn first_error_wins() {
    assert_eq!(lex("@ \"abc"), Err(LexError::UnexpectedCharacter('@')));
    assert_eq!(lex("1.2.3 @"), Err(LexError::MultipleDecimalPoints));
}

#[test]
fn comment_runs_to_end_of_line() {
    assert_eq!(
        lex("# first line\nlet x = 1; # trailing\nprint(x);"),
        lex("let x = 1;\nprint(x);")
    );
    assert_eq!(lex("# \" @ 1.2.3 \nx"), Ok(vec![tok(TokenType::Ident, "x")]));
}

#[test]
fn comment_inside_statement_changes_nothing() {
    let with = lex("let x = \"a\" # comment\n;");
    let without = lex("let x = \"a\" \n;");
    assert_eq!(with, without);
    assert_eq!(
        with,
        Ok(vec![
            tok(LET, "let"),
            tok(TokenType::Ident, "x"),
            tok(TokenType::Assignment, "="),
            tok(STR, "a"),
            tok(TokenType::Semicolon, ";"),
        ])
    );
}

#[test]
fn comment_without_line_end_terminates() {
    assert_eq!(lex("x # no newline"), Ok(vec![tok(TokenType::Ident, "x")]));
    assert_eq!(lex("#"), Ok(vec![]));
}

#[test]
fn hash_inside_string_is_no_comment() {
    assert_eq!(lex("\"a#b\";"), Ok(vec![tok(STR, "a#b"), tok(TokenType::Semicolon, ";")]));
}

#[test]
fn relexing_gives_the_same_tokens() {
    let source = "let x: string = \"hi\"; # note\nx = \"there\"; print(x); print 1.5;";
    let mut tokenizer = Tokenizer::new(source.to_string());
    let first: Vec<(TokenType, String)> =
        tokenizer.tokenize().unwrap().into_iter().map(|t| (t.token_type, t.value)).collect();
    let second: Vec<(TokenType, String)> =
        tokenizer.tokenize().unwrap().into_iter().map(|t| (t.token_type, t.value)).collect();
    assert_eq!(first, second);
    assert_eq!(first.len(), 19);
    assert_eq!(Ok(first), lex(source));
}

#[test]
fn relexing_after_an_error_gives_the_same_error() {
    let mut tokenizer = Tokenizer::new("let x = 1.2.3; \"abc".to_string());
    assert_eq!(tokenizer.tokenize().err(), Some(LexError::MultipleDecimalPoints));
    assert_eq!(tokenizer.tokenize().err(), Some(LexError::MultipleDecimalPoints));
}

#[test]
fn token_new_keeps_its_parts() {
    let t = Token::new(TokenType::Ident, "abc".to_string());
    assert_eq!(t.token_type, TokenType::Ident);
    assert_eq!(t.value, "abc");
    let c = t.clone();
    assert_eq!(c.token_type, TokenType::Ident);
    assert_eq!(c.value, "abc");
}
