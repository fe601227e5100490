use wren_engine::wren::compiler::{
    Compiler, Diagnostic, EscapeKind, LexErrorKind, Parser, TokenType, MAX_SOURCE_LEN,
};
use wren_engine::wren::{Configuration, ErrorType, HostFn, VM};

struct Tok {
    t: TokenType,
    start: usize,
    len: usize,
    line: i32,
    value: Option<Vec<u8>>,
}

/// A lexing error as the parser records it: its line, and its message.
fn e(line: i32, kind: LexErrorKind) -> (i32, String, String) {
    (line, "Error".to_string(), kind.message())
}

fn lex(src: &[u8]) -> (Vec<Tok>, Vec<(i32, String, String)>, bool) {
    let config = Configuration { error_fn: Some(HostFn { id: 1 }), ..Configuration::default() };
    let vm = VM::new(&config);
    let mut p = Parser::new(&vm, None, src, true);
    p.next_token();
    p.next_token();
    let mut out = Vec::new();
    loop {
        let c = &p.current;
        out.push(Tok {
            t: c.tok_type,
            start: c.start_idx,
            len: c.length,
            line: c.line,
            value: c.value.clone(),
        });
        if c.tok_type == TokenType::EOF {
            break;
        }
        p.next_token();
    }
    let errs = p
        .diagnostics
        .iter()
        .map(|d| (d.line, d.label.clone(), d.message.clone()))
        .collect();
    (out, errs, p.has_error)
}

fn types(src: &[u8]) -> Vec<TokenType> {
    lex(src).0.iter().map(|t| t.t).collect()
}

#[test]
fn lexes_a_declaration() {
    let (toks, errs, has_error) = lex(b"var x = 1");
    assert_eq!(
        toks.iter().map(|t| t.t).collect::<Vec<_>>(),
        vec![TokenType::Var, TokenType::Name, TokenType::EQ, TokenType::Number, TokenType::EOF]
    );
    assert_eq!((toks[0].start, toks[0].len), (0, 3));
    assert_eq!((toks[1].start, toks[1].len), (4, 1));
    assert_eq!(toks[1].value, Some(b"x".to_vec()));
    assert_eq!((toks[3].start, toks[3].len), (8, 1));
    assert_eq!(toks[4].start, 9);
    assert!(errs.is_empty());
    assert!(!has_error);
}

#[test]
fn line_tokens_sit_on_the_line_of_their_newline() {
    let (toks, _, _) = lex(b"a\nb");
    assert_eq!(
        toks.iter().map(|t| (t.t, t.line)).collect::<Vec<_>>(),
        vec![
            (TokenType::Name, 1),
            (TokenType::Line, 1),
            (TokenType::Name, 2),
            (TokenType::EOF, 2)
        ]
    );
}

#[test]
fn punctuation_and_operators() {
    assert_eq!(
        types(b"()[]{}:,*%^+-~?"),
        vec![
            TokenType::LeftParen,
            TokenType::RightParen,
            TokenType::LeftBracket,
            TokenType::RightBracket,
            TokenType::LeftBrace,
            TokenType::RightBrace,
            TokenType::Colon,
            TokenType::Comma,
            TokenType::Star,
            TokenType::Percent,
            TokenType::Caret,
            TokenType::Plus,
            TokenType::Minus,
            TokenType::Tilde,
            TokenType::Question,
            TokenType::EOF
        ]
    );
    assert_eq!(
        types(b"| || & && = == . .. ... / < << <= > >> >= #"),
        vec![
            TokenType::Pipe,
            TokenType::PipePipe,
            TokenType::Amp,
            TokenType::AmpAmp,
            TokenType::EQ,
            TokenType::EQEQ,
            TokenType::Dot,
            TokenType::DotDot,
            TokenType::DotDotDot,
            TokenType::Slash,
            TokenType::LT,
            TokenType::LTLT,
            TokenType::LTEQ,
            TokenType::GT,
            TokenType::GTGT,
            TokenType::GTEQ,
            TokenType::Hash,
            TokenType::EOF
        ]
    );
}

#[test]
fn keywords_names_and_fields() {
    assert_eq!(
        types(b"break continue class construct else false for foreign if import as in is"),
        vec![
            TokenType::Break,
            TokenType::Continue,
            TokenType::Class,
            TokenType::Construct,
            TokenType::Else,
            TokenType::False,
            TokenType::For,
            TokenType::Foreign,
            TokenType::If,
            TokenType::Import,
            TokenType::As,
            TokenType::In,
            TokenType::Is,
            TokenType::EOF
        ]
    );
    assert_eq!(
        types(b"null return static super this true var while"),
        vec![
            TokenType::Null,
            TokenType::Return,
            TokenType::Static,
            TokenType::Super,
            TokenType::This,
            TokenType::True,
            TokenType::Var,
            TokenType::While,
            TokenType::EOF
        ]
    );
    let (toks, _, _) = lex(b"classy _x __y a1_b");
    assert_eq!(
        toks.iter().map(|t| t.t).collect::<Vec<_>>(),
        vec![
            TokenType::Name,
            TokenType::Field,
            TokenType::StaticField,
            TokenType::Name,
            TokenType::EOF
        ]
    );
    assert_eq!(toks[0].value, Some(b"classy".to_vec()));
    assert_eq!(toks[2].value, Some(b"__y".to_vec()));
    assert_eq!(toks[3].value, Some(b"a1_b".to_vec()));
}

#[test]
fn numbers() {
    let (toks, errs, _) = lex(b"12 3.25 1e10 2.5E-3 0x1F 3.x");
    assert_eq!(
        toks.iter().map(|t| (t.t, t.start, t.len)).collect::<Vec<_>>(),
        vec![
            (TokenType::Number, 0, 2),
            (TokenType::Number, 3, 4),
            (TokenType::Number, 8, 4),
            (TokenType::Number, 13, 6),
            (TokenType::Number, 20, 4),
            (TokenType::Number, 25, 1),
            (TokenType::Dot, 26, 1),
            (TokenType::Name, 27, 1),
            (TokenType::EOF, 28, 0)
        ]
    );
    assert!(errs.is_empty());
    assert_eq!(toks[0].value, None);
}

#[test]
fn hex_number_too_large() {
    let (toks, errs, has_error) = lex(b"0x7fffffffffffffff 0x8000000000000000");
    assert_eq!(toks[0].t, TokenType::Number);
    assert_eq!(toks[1].t, TokenType::Number);
    assert_eq!(toks[1].len, 18);
    assert_eq!(errs, vec![e(1, LexErrorKind::NumberTooLarge)]);
    assert!(has_error);
}

#[test]
fn exponent_without_digits_is_an_error() {
    let (toks, errs, _) = lex(b"1e+");
    assert_eq!(toks[0].t, TokenType::Number);
    assert_eq!(toks[0].len, 3);
    assert_eq!(
        errs,
        vec![e(1, LexErrorKind::UnterminatedScientificNotation)]
    );
}

#[test]
fn strings_and_escapes() {
    let (toks, errs, _) = lex(b"\"a\\tb\\\"\\\\\\x41\\u00e9\\U0001F600\"");
    assert_eq!(toks[0].t, TokenType::String);
    let mut expected = b"a\tb\"\\A".to_vec();
    expected.extend_from_slice(&[0xc3, 0xa9, 0xf0, 0x9f, 0x98, 0x80]);
    assert_eq!(toks[0].value, Some(expected));
    assert!(errs.is_empty());
    let (toks, _, _) = lex(b"\"\\0\\a\\b\\e\\f\\n\\r\\v\\%\"");
    assert_eq!(toks[0].value, Some(vec![0, 7, 8, 0x1b, 0x0c, b'\n', b'\r', 0x0b, b'%']));
}

#[test]
fn string_errors() {
    let (toks, errs, _) = lex(b"\"abc");
    assert_eq!(toks[0].t, TokenType::String);
    assert_eq!(toks[0].value, Some(b"abc".to_vec()));
    assert_eq!(errs, vec![e(1, LexErrorKind::UnterminatedString)]);
    let (_, errs, _) = lex(b"\"\\q\"");
    assert_eq!(
        errs,
        vec![e(1, LexErrorKind::InvalidEscapeCharacter(b'q'))]
    );
    let (toks, errs, _) = lex(b"\"\\x4\"");
    assert_eq!(
        errs,
        vec![e(1, LexErrorKind::IncompleteEscape(EscapeKind::Byte))]
    );
    assert_eq!(toks[0].value, Some(vec![4, b'4']));
    let (_, errs, _) = lex(b"\"\\uZZZZ\"");
    assert_eq!(
        errs,
        vec![e(1, LexErrorKind::InvalidEscape(EscapeKind::Unicode))]
    );
}

#[test]
fn interpolation() {
    let (toks, errs, _) = lex(b"\"a %(b (c)) d\"");
    assert_eq!(
        toks.iter().map(|t| t.t).collect::<Vec<_>>(),
        vec![
            TokenType::Interpolation,
            TokenType::Name,
            TokenType::LeftParen,
            TokenType::Name,
            TokenType::RightParen,
            TokenType::String,
            TokenType::EOF
        ]
    );
    assert_eq!(toks[0].value, Some(b"a ".to_vec()));
    assert_eq!(toks[5].value, Some(b" d".to_vec()));
    assert!(errs.is_empty());
    let (_, errs, _) = lex(b"\"%x\"");
    assert_eq!(
        errs,
        vec![
            e(1, LexErrorKind::ExpectParenAfterPercent),
            e(1, LexErrorKind::UnterminatedString),
        ]
    );
}

#[test]
fn interpolation_nests_at_most_eight_deep() {
    let src = b"\"%(\"%(\"%(\"%(\"%(\"%(\"%(\"%(\"%(1)\")\")\")\")\")\")\")\")\"";
    let (_, errs, _) = lex(src);
    assert!(errs.contains(&e(1, LexErrorKind::InterpolationTooDeep)));
}

#[test]
fn raw_strings() {
    let (toks, errs, _) = lex(b"\"\"\"\n  hello\n  \"\"\"");
    assert_eq!(toks[0].t, TokenType::String);
    assert_eq!(toks[0].value, Some(b"  hello".to_vec()));
    assert!(errs.is_empty());
    let (toks, _, _) = lex(b"\"\"\"a \"b\" c\"\"\"");
    assert_eq!(toks[0].value, Some(b"a \"b\" c".to_vec()));
    let (toks, _, _) = lex(b"\"\"\"  \nX\"\"\"");
    assert_eq!(toks[0].value, Some(b"  \nX".to_vec()));
    let (toks, errs, _) = lex(b"\"\"\"abc");
    assert_eq!(toks[0].t, TokenType::String);
    assert_eq!(errs, vec![e(1, LexErrorKind::UnterminatedRawString)]);
}

#[test]
fn comments_and_blanks() {
    let (toks, errs, _) = lex(b"a // note\n/* outer /* inner */ still */ b\t\r c");
    assert_eq!(
        toks.iter().map(|t| (t.t, t.line)).collect::<Vec<_>>(),
        vec![
            (TokenType::Name, 1),
            (TokenType::Line, 1),
            (TokenType::Name, 2),
            (TokenType::Name, 2),
            (TokenType::EOF, 2)
        ]
    );
    assert!(errs.is_empty());
    let (_, errs, _) = lex(b"/* open");
    assert_eq!(
        errs,
        vec![e(1, LexErrorKind::UnterminatedBlockComment)]
    );
}

#[test]
fn shebang_only_on_the_first_line() {
    assert_eq!(types(b"#!/usr/bin/wren\nx"), vec![TokenType::Line, TokenType::Name, TokenType::EOF]);
    assert_eq!(
        types(b"x\n#!/y"),
        vec![
            TokenType::Name,
            TokenType::Line,
            TokenType::Hash,
            TokenType::Error,
            TokenType::Slash,
            TokenType::Name,
            TokenType::EOF
        ]
    );
}

#[test]
fn invalid_bytes() {
    let (toks, errs, has_error) = lex(b"@ \x01 !");
    assert_eq!(
        toks.iter().map(|t| t.t).collect::<Vec<_>>(),
        vec![TokenType::Error, TokenType::Error, TokenType::Error, TokenType::EOF]
    );
    assert_eq!(toks[0].len, 0);
    assert_eq!(
        errs,
        vec![
            e(1, LexErrorKind::InvalidCharacter(b'@')),
            e(1, LexErrorKind::InvalidByte(1)),
            e(1, LexErrorKind::InvalidCharacter(b'!'))
        ]
    );
    assert!(has_error);
}

#[test]
fn errors_are_listed_only_when_printed() {
    let vm = VM::new(&Configuration::default());
    let mut p = Parser::new(&vm, None, b"@", false);
    p.next_token();
    assert_eq!(p.next.tok_type, TokenType::Error);
    assert!(p.has_error);
    assert!(p.diagnostics.is_empty());
}

#[test]
fn errors_are_listed_only_with_an_error_callback() {
    let vm = VM::new(&Configuration::default());
    let mut p = Parser::new(&vm, None, b"@", true);
    p.next_token();
    assert_eq!(p.next.tok_type, TokenType::Error);
    assert!(p.has_error);
    assert!(p.diagnostics.is_empty());
}

#[test]
fn source_ends_at_nul() {
    assert_eq!(types(b"a\0b"), vec![TokenType::Name, TokenType::EOF]);
    assert_eq!(types(b""), vec![TokenType::EOF]);
}

#[test]
fn end_of_file_is_sticky() {
    let vm = VM::new(&Configuration::default());
    let mut p = Parser::new(&vm, None, b"x", true);
    p.next_token();
    p.next_token();
    p.next_token();
    assert_eq!(p.current.tok_type, TokenType::EOF);
    let pos = p.current_char;
    p.next_token();
    p.next_token();
    assert_eq!(p.current.tok_type, TokenType::EOF);
    assert_eq!(p.next.tok_type, TokenType::EOF);
    assert_eq!(p.previous.tok_type, TokenType::EOF);
    assert_eq!(p.current_char, pos);
}

#[test]
fn compiler_skips_newlines() {
    let vm = VM::new(&Configuration::default());
    let mut p = Parser::new(&vm, None, b"\n\n\nx", true);
    p.next_token();
    p.next_token();
    let mut c = Compiler::new(p);
    assert_eq!(c.peek(), TokenType::Line);
    assert!(c.match_line());
    assert_eq!(c.peek(), TokenType::Name);
    assert!(!c.match_line());
    assert!(!c.match_token(TokenType::Var));
    assert!(c.match_token(TokenType::Name));
    assert_eq!(c.peek(), TokenType::EOF);
    c.ignore_newlines();
    assert_eq!(c.peek(), TokenType::EOF);
}

#[test]
fn source_length_limit() {
    assert!(MAX_SOURCE_LEN >= 0x0fff_0000);
}

#[test]
fn error_reports_carry_module_line_and_message() {
    let config = Configuration { error_fn: Some(HostFn { id: 1 }), ..Configuration::default() };
    let vm = VM::new(&config);
    let mut p = Parser::new(&vm, Some("main"), b"x\n@ \"abc", true);
    p.next_token();
    p.next_token();
    while p.current.tok_type != TokenType::EOF {
        p.next_token();
    }
    let reports = p.error_reports();
    assert_eq!(reports.len(), 2);
    assert_eq!(reports[0].error_type, ErrorType::WrenErrorCompile);
    assert_eq!(reports[0].module, "main");
    assert_eq!(reports[0].line, 2);
    assert_eq!(reports[0].message, "Error: Invalid character: '64'.");
    assert_eq!(reports[1].line, 2);
    assert_eq!(reports[1].message, "Error: Unterminated string.");
}

#[test]
fn error_reports_name_an_unnamed_module_unknown() {
    let config = Configuration { error_fn: Some(HostFn { id: 1 }), ..Configuration::default() };
    let vm = VM::new(&config);
    let p = Parser::new(&vm, None, b"", true);
    let d = Diagnostic {
        line: 3,
        label: "Error".to_string(),
        message: LexErrorKind::UnterminatedBlockComment.message(),
    };
    let r = p.error_report(&d);
    assert_eq!(r.module, "<unknown>");
    assert_eq!(r.line, 3);
    assert_eq!(r.message, "Error: Unterminated block comment.");
}

#[test]
fn error_messages() {
    let m = |k: LexErrorKind| k.message();
    assert_eq!(m(LexErrorKind::UnterminatedRawString), "Unterminated raw string.");
    assert_eq!(m(LexErrorKind::ExpectParenAfterPercent), "Expect '(' after '%'.");
    assert_eq!(m(LexErrorKind::InterpolationTooDeep), "Interpolation may only nest 8 levels deep.");
    assert_eq!(m(LexErrorKind::InvalidEscapeCharacter(b'q')), "Invalid escape character 'q'");
    assert_eq!(m(LexErrorKind::IncompleteEscape(EscapeKind::Byte)), "Incomplete byte escape sequence.");
    assert_eq!(m(LexErrorKind::InvalidEscape(EscapeKind::Unicode)), "Invalid Unicode escape sequence.");
    assert_eq!(m(LexErrorKind::InvalidCharacter(b'!')), "Invalid character: '33'.");
    assert_eq!(m(LexErrorKind::InvalidByte(7)), "Invalid byte 0x7.");
    assert_eq!(m(LexErrorKind::InvalidByte(200)), "Invalid byte 0x200.");
    assert_eq!(m(LexErrorKind::UnterminatedScientificNotation), "Unterminated scientific notation.");
    assert_eq!(m(LexErrorKind::NumberTooLarge), "Number literal was too large (8).");
}

#[test]
fn line_counter_follows_newlines() {
    let (toks, _, _) = lex(b"a\n\"x\ny\"\nb");
    let b = toks.iter().find(|t| t.t == TokenType::Name && t.start == 8).unwrap();
    assert_eq!(b.line, 4);
    let string = toks.iter().find(|t| t.t == TokenType::String).unwrap();
    assert_eq!(string.line, 3);
    let first_line = toks.iter().find(|t| t.t == TokenType::Line).unwrap();
    assert_eq!(first_line.line, 1);
}

#[test]
fn a_hex_number_before_a_newline_counts_it_twice() {
    let (toks, _, _) = lex(b"0x1\nz");
    let z = toks.iter().find(|t| t.t == TokenType::Name).unwrap();
    assert_eq!(z.line, 3);
}

#[test]
fn errors_stay_marked() {
    let config = Configuration { error_fn: Some(HostFn { id: 1 }), ..Configuration::default() };
    let vm = VM::new(&config);
    let mut p = Parser::new(&vm, None, b"@ a b c", true);
    p.next_token();
    assert!(p.has_error);
    let n = p.diagnostics.len();
    for _ in 0..5 {
        p.next_token();
        assert!(p.has_error);
        assert_eq!(p.diagnostics.len(), n);
    }
}

#[test]
fn lexing_stops_at_the_first_nul() {
    let vm = VM::new(&Configuration::default());
    let mut p = Parser::new(&vm, None, b"a b\0c d", true);
    for _ in 0..6 {
        p.next_token();
        assert!(p.current_char <= 3);
    }
    assert!(!p.has_error);
}

#[test]
fn an_escape_before_the_nul_steps_past_it_with_an_error() {
    let vm = VM::new(&Configuration::default());
    let mut p = Parser::new(&vm, None, b"\"\\\0ab", true);
    p.next_token();
    p.next_token();
    assert!(p.current_char > 2);
    assert!(p.has_error);
}

#[test]
fn print_error_reports_any_label_and_message() {
    let config = Configuration { error_fn: Some(HostFn { id: 1 }), ..Configuration::default() };
    let vm = VM::new(&config);
    let mut p = Parser::new(&vm, None, b"\0", true);
    p.print_error(3, "Error", "Oops");
    assert!(p.has_error);
    let reports = p.error_reports();
    assert_eq!(reports.len(), 1);
    assert_eq!(reports[0].error_type, ErrorType::WrenErrorCompile);
    assert_eq!(reports[0].module, "<unknown>");
    assert_eq!(reports[0].line, 3);
    assert_eq!(reports[0].message, "Error: Oops");
    assert_eq!(p.current_char, 0);
    assert_eq!(p.module, None);
}
