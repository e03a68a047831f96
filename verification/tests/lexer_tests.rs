use bruhlang::lexer::lex;
use bruhlang::token::Token;

#[test]
fn lex_columns_count_bytes() {
    let (lines, errors) = lex("  bruh. momentum");
    assert_eq!(lines.len(), 1);
    assert_eq!(lines[0].len(), 2);
    assert_eq!(lines[0][0].tok, Token::VarA);
    assert_eq!(lines[0][0].pos.line, 1);
    assert_eq!(lines[0][0].pos.col, 3);
    assert_eq!(lines[0][1].tok, Token::Momentum);
    assert_eq!(lines[0][1].pos.col, 9);
    assert!(errors.is_empty());
}

#[test]
fn lex_multibyte_column() {
    // 'é' takes two bytes, so the token after it starts at byte 3 (column 4)
    let (lines, errors) = lex("é bruh!");
    assert_eq!(lines[0].len(), 1);
    assert_eq!(lines[0][0].tok, Token::VarB);
    assert_eq!(lines[0][0].pos.col, 4);
    assert_eq!(errors.len(), 1);
    assert_eq!(errors[0].raw, "é");
    assert_eq!(errors[0].col, 1);
}

#[test]
fn lex_unicode_whitespace_separates_words() {
    // U+3000 IDEOGRAPHIC SPACE is white space (3 bytes)
    let (lines, errors) = lex("bruh?\u{3000}moment");
    assert!(errors.is_empty());
    assert_eq!(lines[0].len(), 2);
    assert_eq!(lines[0][1].tok, Token::Moment);
    assert_eq!(lines[0][1].pos.col, 9);
}

#[test]
fn lex_comments_and_empty_lines() {
    let (lines, errors) = lex("# a comment\n\nsound#x\neffect # done\n");
    assert!(errors.is_empty());
    assert_eq!(lines.len(), 4);
    assert_eq!(lines[0].len(), 0);
    assert_eq!(lines[1].len(), 0);
    assert_eq!(lines[2].len(), 1);
    assert_eq!(lines[2][0].tok, Token::Sound);
    assert_eq!(lines[3][0].tok, Token::Effect);
    assert_eq!(lines[3][0].pos.line, 4);
}

#[test]
fn lex_crlf_and_final_line() {
    let (lines, errors) = lex("bruh.\r\nbruh!");
    assert!(errors.is_empty());
    assert_eq!(lines.len(), 2);
    assert_eq!(lines[1][0].tok, Token::VarB);
    assert_eq!(lines[1][0].pos.line, 2);
    let (lines, _) = lex("");
    assert_eq!(lines.len(), 0);
    let (lines, _) = lex("\n");
    assert_eq!(lines.len(), 1);
}

#[test]
fn lex_unknown_words_in_order() {
    let (lines, errors) = lex("foo bruh.\nbar baz");
    assert_eq!(lines[0].len(), 1);
    assert_eq!(errors.len(), 3);
    assert_eq!((errors[0].line, errors[0].col, errors[0].raw.as_str()), (1, 1, "foo"));
    assert_eq!((errors[1].line, errors[1].col, errors[1].raw.as_str()), (2, 1, "bar"));
    assert_eq!((errors[2].line, errors[2].col, errors[2].raw.as_str()), (2, 5, "baz"));
}

#[test]
fn lex_keywords_are_exact() {
    let (lines, errors) = lex("bruh momentumm Sound");
    assert_eq!(lines[0].len(), 0);
    assert_eq!(errors.len(), 3);
}
