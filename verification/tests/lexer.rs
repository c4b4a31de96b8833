use betty_ide::highligher::{Highligher, Token, TokenType};

fn tokens_of(input: &str) -> Vec<Token> {
    Highligher::new(input.to_string()).make_tokens()
}

fn assert_tokens(input: &str, expected: &[(TokenType, &str)]) {
    let tokens = tokens_of(input);
    assert_eq!(
        tokens.len(),
        expected.len(),
        "token count for {:?}: got {:?}",
        input,
        tokens
    );
    for (tok, (typ, lit)) in tokens.iter().zip(expected.iter()) {
        assert_eq!(tok.0, *typ, "token type in {:?}: got {:?}", input, tokens);
        assert_eq!(tok.1, *lit, "token literal in {:?}: got {:?}", input, tokens);
    }
}

#[test]
fn empty_input_yields_no_tokens() {
    assert_tokens("", &[]);
}

#[test]
fn lossless_on_mixed_program() {
    let program = "fun greet do\n  print(\"hi there\")\n  x = 1_000 + y | trailing note\nend\n";
    let tokens = tokens_of(program);
    let rebuilt: String = tokens.iter().map(|t| t.1.as_str()).collect();
    assert_eq!(rebuilt, program);
}

#[test]
fn lossless_on_malformed_input() {
    let program = "\"unterminated |and \u{7}weird\u{300} stuff\n1.2.3.4";
    let tokens = tokens_of(program);
    let rebuilt: String = tokens.iter().map(|t| t.1.as_str()).collect();
    assert_eq!(rebuilt, program);
}

#[test]
fn repeated_calls_agree() {
    let program = "while x < 10 do x = x + 1 end | loop\n\"s\"";
    let first = tokens_of(program);
    let second = tokens_of(program);
    assert_eq!(first.len(), second.len());
    for (a, b) in first.iter().zip(second.iter()) {
        assert_eq!(a.0, b.0);
        assert_eq!(a.1, b.1);
    }
}

#[test]
fn builtin_fun_beats_call_site() {
    assert_tokens(
        "print(",
        &[(TokenType::BuiltinFun, "print"), (TokenType::Other, "(")],
    );
}

#[test]
fn user_call_site_is_fun() {
    assert_tokens("myFunc(", &[(TokenType::Fun, "myFunc"), (TokenType::Other, "(")]);
}

#[test]
fn bare_identifier_stays_ident() {
    assert_tokens("myVar ", &[(TokenType::Ident, "myVar"), (TokenType::Other, " ")]);
}

#[test]
fn lookahead_skips_spaces_and_tabs() {
    assert_tokens(
        "foo \t (",
        &[
            (TokenType::Fun, "foo"),
            (TokenType::Other, " "),
            (TokenType::Other, "\t"),
            (TokenType::Other, " "),
            (TokenType::Other, "("),
        ],
    );
}

#[test]
fn lookahead_does_not_skip_newlines_in_between() {
    // The first character after the identifier is a space, so the search
    // runs on: it stops at the newline, which is not skipped.
    assert_tokens(
        "foo \n(",
        &[
            (TokenType::Ident, "foo"),
            (TokenType::Other, " "),
            (TokenType::Other, "\n"),
            (TokenType::Other, "("),
        ],
    );
}

#[test]
fn lookahead_searches_past_the_current_character() {
    // The lookahead tests the character right after the identifier first,
    // and searches only past it: a newline standing there is passed over.
    assert_tokens(
        "foo\n(",
        &[
            (TokenType::Fun, "foo"),
            (TokenType::Other, "\n"),
            (TokenType::Other, "("),
        ],
    );
}

#[test]
fn number_with_separators() {
    assert_tokens("1_000", &[(TokenType::Num, "1_000")]);
}

#[test]
fn malformed_number_is_other() {
    assert_tokens("1.2.3", &[(TokenType::Other, "1.2.3")]);
}

#[test]
fn number_with_trailing_point() {
    assert_tokens("1.", &[(TokenType::Num, "1.")]);
}

#[test]
fn number_past_integer_range_is_still_num() {
    assert_tokens(
        "99999999999999999999999999",
        &[(TokenType::Num, "99999999999999999999999999")],
    );
}

#[test]
fn number_run_ends_before_identifier() {
    assert_tokens("123abc", &[(TokenType::Num, "123"), (TokenType::Ident, "abc")]);
}

#[test]
fn unterminated_string() {
    assert_tokens("\"abc", &[(TokenType::Str, "\"abc")]);
}

#[test]
fn terminated_string_keeps_quotes() {
    assert_tokens("\"abc\"", &[(TokenType::Str, "\"abc\"")]);
}

#[test]
fn empty_string_literal() {
    assert_tokens("\"\"", &[(TokenType::Str, "\"\"")]);
}

#[test]
fn backslash_does_not_escape_a_quote() {
    // No escape sequences: the quote after the backslash closes the string.
    assert_tokens(
        "\"x\\\"y\"",
        &[
            (TokenType::Str, "\"x\\\""),
            (TokenType::Ident, "y"),
            (TokenType::Str, "\""),
        ],
    );
}

#[test]
fn single_line_comment_excludes_newline() {
    assert_tokens(
        "|note\nx",
        &[
            (TokenType::Comment, "|note"),
            (TokenType::Other, "\n"),
            (TokenType::Ident, "x"),
        ],
    );
}

#[test]
fn comment_at_end_of_input() {
    assert_tokens("|note", &[(TokenType::Comment, "|note")]);
}

#[test]
fn parenthesis_is_excluded_from_symbols() {
    assert_tokens("(", &[(TokenType::Other, "(")]);
}

#[test]
fn plus_is_a_symbol() {
    assert_tokens("+", &[(TokenType::Sym, "+")]);
}

#[test]
fn every_symbol_of_the_set() {
    for sym in ["+", "-", "*", "/", "^", "%", ":", "=", ">", "<", "!", "?"] {
        assert_tokens(sym, &[(TokenType::Sym, sym)]);
    }
}

#[test]
fn excluded_punctuation_is_other() {
    for other in ["(", ")", "[", "]", ",", ".", ";", "@", " "] {
        assert_tokens(other, &[(TokenType::Other, other)]);
    }
}

#[test]
fn keyword_vs_identifier() {
    assert_tokens("if", &[(TokenType::Kw, "if")]);
    assert_tokens("iffy", &[(TokenType::Ident, "iffy")]);
}

#[test]
fn keyword_beats_call_site() {
    assert_tokens("if(", &[(TokenType::Kw, "if"), (TokenType::Other, "(")]);
}

#[test]
fn error_name_is_recognized() {
    assert_tokens("ValueError", &[(TokenType::Error, "ValueError")]);
}

#[test]
fn error_name_beats_call_site() {
    assert_tokens(
        "ValueError(",
        &[(TokenType::Error, "ValueError"), (TokenType::Other, "(")],
    );
}

#[test]
fn underscore_opens_an_identifier() {
    assert_tokens("_private1", &[(TokenType::Ident, "_private1")]);
}

#[test]
fn advance_moves_one_character() {
    let mut lexer = Highligher::new("ab".to_string());
    lexer.advance();
    let tokens = lexer.make_tokens();
    assert_eq!(tokens.len(), 1);
    assert_eq!(tokens[0].1, "b");
}
