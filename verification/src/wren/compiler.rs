use vstd::prelude::*;

use vstd::string::StringExecFns;

use super::report::lex_message;
use super::utils::{Buffer, MAX_BUFFER_COUNT};
use super::VM;

verus! {

/// How deeply string interpolations may nest.
pub const MAX_INTERPOLATION_NESTING: usize = 8;

/// The longest source the lexer accepts: line numbers and buffer counts are
/// `i32` values and must not overflow.
pub const MAX_SOURCE_LEN: usize = 0x0fff_0000;

#[derive(Clone, Copy, Debug, PartialEq, Eq, Structural)]
pub enum TokenType {
    LeftParen,
    RightParen,
    LeftBracket,
    RightBracket,
    LeftBrace,
    RightBrace,
    Colon,
    Dot,
    DotDot,
    DotDotDot,
    Comma,
    Star,
    Slash,
    Percent,
    Hash,
    Plus,
    Minus,
    LTLT,
    GTGT,
    Pipe,
    PipePipe,
    Caret,
    Amp,
    AmpAmp,
    Bang,
    Tilde,
    Question,
    EQ,
    LT,
    GT,
    LTEQ,
    GTEQ,
    EQEQ,
    BangEQ,
    Break,
    Continue,
    Class,
    Construct,
    Else,
    False,
    For,
    Foreign,
    If,
    Import,
    As,
    In,
    Is,
    Null,
    Return,
    Static,
    Super,
    This,
    True,
    Var,
    While,
    Field,
    StaticField,
    Name,
    Number,
    String,
    Interpolation,
    Line,
    Error,
    EOF,
}

/// Which escape sequence a hex-digit error belongs to.
#[derive(Clone, Copy, Debug, PartialEq, Eq, Structural)]
pub enum EscapeKind {
    Byte,
    Unicode,
}

/// What went wrong while lexing.
#[derive(Clone, Copy, Debug, PartialEq, Eq, Structural)]
pub enum LexErrorKind {
    UnterminatedBlockComment,
    UnterminatedRawString,
    UnterminatedString,
    ExpectParenAfterPercent,
    InterpolationTooDeep,
    InvalidEscapeCharacter(u8),
    IncompleteEscape(EscapeKind),
    InvalidEscape(EscapeKind),
    InvalidCharacter(u8),
    InvalidByte(u8),
    UnterminatedScientificNotation,
    NumberTooLarge,
}

/// An error as the parser records it: the line it was reported at, its
/// label and its message.
pub struct Diagnostic {
    pub line: i32,
    pub label: String,
    pub message: String,
}

impl View for Diagnostic {
    type V = (i32, Seq<char>, Seq<char>);

    open spec fn view(&self) -> Self::V {
        (self.line, self.label@, self.message@)
    }
}

/// A token: its type, where its text lies in the source, the line it is on,
/// and, for names and strings, the bytes it denotes.
pub struct Token {
    pub tok_type: TokenType,
    pub start_idx: usize,
    pub length: usize,
    pub line: i32,
    pub value: Option<Vec<u8>>,
}

/// A token as a mathematical value.
pub struct TokenView {
    pub tok_type: TokenType,
    pub start: int,
    pub length: int,
    pub line: int,
    pub value: Option<Seq<u8>>,
}

/// The placeholder token: an error token with no text.
pub open spec fn null_token_view() -> TokenView {
    TokenView { tok_type: TokenType::Error, start: 0, length: 0, line: 0, value: None }
}

impl Token {
    pub open spec fn view(&self) -> TokenView {
        TokenView {
            tok_type: self.tok_type,
            start: self.start_idx as int,
            length: self.length as int,
            line: self.line as int,
            value: match self.value {
                Some(v) => Some(v@),
                None => None,
            },
        }
    }

    /// The placeholder token a parser starts with.
    pub fn null() -> (t: Token)
        ensures
            t.view() == null_token_view(),
    {
        Token { tok_type: TokenType::Error, start_idx: 0, length: 0, line: 0, value: None }
    }

    /// A copy of this token.
    pub fn duplicate(&self) -> (t: Token)
        ensures
            t.view() == self.view(),
    {
        let value = match &self.value {
            Some(v) => Some(copy_bytes(v.as_slice())),
            None => None,
        };
        Token {
            tok_type: self.tok_type,
            start_idx: self.start_idx,
            length: self.length,
            line: self.line,
            value,
        }
    }
}

/// The bytes of `s` in a vector of their own.
pub fn copy_bytes(s: &[u8]) -> (v: Vec<u8>)
    ensures
        v@ == s@,
{
    copy_range(s, 0, s.len())
}

/// The bytes of `s` from `start` up to `end`.
pub fn copy_range(s: &[u8], start: usize, end: usize) -> (v: Vec<u8>)
    requires
        start <= end <= s@.len(),
    ensures
        v@ == s@.subrange(start as int, end as int),
{
    let mut v: Vec<u8> = Vec::new();
    let mut i = start;
    while i < end
        invariant
            start <= i <= end <= s@.len(),
            v@ == s@.subrange(start as int, i as int),
        decreases end - i,
    {
        v.push(s[i]);
        i = i + 1;
        assert(v@ =~= s@.subrange(start as int, i as int));
    }
    v
}

// ---------------------------------------------------------------------------
// The lexer's state as a mathematical value, and what each step does to it.
// ---------------------------------------------------------------------------

/// Where the lexer stands: the read position, the current line, the open
/// interpolations (each with its count of unclosed parentheses), the errors
/// reported so far, whether any error occurred, and whether errors are
/// reported at all.
pub struct ScanState {
    pub pos: int,
    pub line: int,
    pub parens: Seq<i32>,
    pub errors: Seq<(i32, Seq<char>, Seq<char>)>,
    pub has_error: bool,
    pub print: bool,
}

/// The byte at `i`; the source reads as NUL from its end on, so it ends at
/// its first NUL byte or at its end.
pub open spec fn char_at(s: Seq<u8>, i: int) -> u8 {
    if 0 <= i < s.len() {
        s[i]
    } else {
        0u8
    }
}

/// The byte after the one at `i`, or `'0'` when the one at `i` is the end.
pub open spec fn peek_next_at(s: Seq<u8>, i: int) -> u8 {
    if char_at(s, i) == 0 {
        '0' as u8
    } else {
        char_at(s, i + 1)
    }
}

/// Consumes one byte, counting a newline.
pub open spec fn sp_next_char(s: Seq<u8>, st: ScanState) -> ScanState {
    ScanState {
        pos: st.pos + 1,
        line: if char_at(s, st.pos) == '\n' as u8 {
            st.line + 1
        } else {
            st.line
        },
        ..st
    }
}

/// Moves the read position back by one byte; the line count stays.
pub open spec fn sp_back(st: ScanState) -> ScanState {
    ScanState { pos: st.pos - 1, ..st }
}

/// Reports a lexing error at the current line, labelled "Error".
pub open spec fn sp_lex_error(st: ScanState, kind: LexErrorKind) -> ScanState {
    sp_print_error(st, st.line, "Error"@, lex_message(kind))
}

/// Records an error: it is remembered, and listed when errors are reported.
pub open spec fn sp_print_error(
    st: ScanState,
    line: int,
    label: Seq<char>,
    message: Seq<char>,
) -> ScanState {
    ScanState {
        has_error: true,
        errors: if st.print {
            st.errors.push((line as i32, label, message))
        } else {
            st.errors
        },
        ..st
    }
}

/// Consumes `c` if it is the next byte.
pub open spec fn sp_match_char(s: Seq<u8>, st: ScanState, c: u8) -> (bool, ScanState) {
    if char_at(s, st.pos) != c {
        (false, st)
    } else {
        (true, sp_next_char(s, st))
    }
}

/// The token that ends at the read position and starts at `token_start`;
/// a line token is put on the line of its newline. Its value stays.
pub open spec fn sp_make_token(
    next: TokenView,
    t: TokenType,
    token_start: int,
    st: ScanState,
) -> TokenView {
    TokenView {
        tok_type: t,
        start: token_start,
        length: st.pos - token_start,
        line: if t == TokenType::Line {
            st.line - 1
        } else {
            st.line
        },
        value: next.value,
    }
}

/// The position of the newline or the end that closes a line comment.
pub open spec fn line_comment_end(s: Seq<u8>, pos: int) -> int
    decreases s.len() - pos,
{
    if char_at(s, pos) == '\n' as u8 || char_at(s, pos) == 0 {
        pos
    } else {
        line_comment_end(s, pos + 1)
    }
}

/// Skips a block comment whose `nesting` openers are still unclosed.
pub open spec fn sp_block_comment(s: Seq<u8>, st: ScanState, nesting: int) -> ScanState
    decreases s.len() - st.pos,
{
    if nesting <= 0 {
        st
    } else if char_at(s, st.pos) == 0 {
        sp_lex_error(st, LexErrorKind::UnterminatedBlockComment)
    } else if char_at(s, st.pos) == '/' as u8 && peek_next_at(s, st.pos) == '*' as u8 {
        sp_block_comment(s, sp_next_char(s, sp_next_char(s, st)), nesting + 1)
    } else if char_at(s, st.pos) == '*' as u8 && peek_next_at(s, st.pos) == '/' as u8 {
        sp_block_comment(s, sp_next_char(s, sp_next_char(s, st)), nesting - 1)
    } else {
        sp_block_comment(s, sp_next_char(s, st), nesting)
    }
}

/// The state of reading a raw string: where the lexer stands, the bytes
/// read so far, and the marks that decide which leading and trailing
/// whitespace lines are dropped (`-1` when unset).
pub struct RawScan {
    pub st: ScanState,
    pub buf: Seq<u8>,
    pub skip_start: int,
    pub first_newline: int,
    pub skip_end: int,
    pub last_newline: int,
}

/// Reads the body of a raw string up to its closing `"""`, or to the end,
/// which is an error.
pub open spec fn sp_raw_loop(s: Seq<u8>, r: RawScan) -> RawScan
    decreases s.len() - r.st.pos,
{
    let c = char_at(s, r.st.pos);
    let st1 = sp_next_char(s, r.st);
    let c1 = char_at(s, st1.pos);
    let c2 = peek_next_at(s, st1.pos);
    if c == '\r' as u8 {
        sp_raw_loop(s, RawScan { st: st1, ..r })
    } else {
        let count = r.buf.len() as int;
        let last_newline = if c == '\n' as u8 {
            count
        } else {
            r.last_newline
        };
        let skip_end0 = if c == '\n' as u8 {
            count
        } else {
            r.skip_end
        };
        let first_newline = if c == '\n' as u8 && r.first_newline == -1 {
            count
        } else {
            r.first_newline
        };
        if c == '"' as u8 && c1 == '"' as u8 && c2 == '"' as u8 {
            RawScan { st: st1, buf: r.buf, skip_start: r.skip_start, first_newline, skip_end: skip_end0, last_newline }
        } else {
            let ws = c == ' ' as u8 || c == '\t' as u8;
            let skip_end = if c == '\n' as u8 || ws {
                skip_end0
            } else {
                -1
            };
            let skip_start1 = if r.skip_start != 1 && ws && first_newline == -1 {
                count + 1
            } else {
                r.skip_start
            };
            let skip_start = if first_newline == -1 && !ws && c != '\n' as u8 {
                -1
            } else {
                skip_start1
            };
            if c == 0 || c1 == 0 || c2 == 0 {
                RawScan {
                    st: sp_back(sp_lex_error(st1, LexErrorKind::UnterminatedRawString)),
                    buf: r.buf,
                    skip_start,
                    first_newline,
                    skip_end,
                    last_newline,
                }
            } else {
                sp_raw_loop(
                    s,
                    RawScan { st: st1, buf: r.buf.push(c), skip_start, first_newline, skip_end, last_newline },
                )
            }
        }
    }
}

/// The bytes a raw string denotes: a first line that holds only
/// whitespace, and a last line that holds only whitespace, are dropped.
pub open spec fn raw_string_value(r: RawScan) -> Seq<u8> {
    let offset = if r.first_newline != -1 && r.skip_start == r.first_newline {
        r.first_newline + 1
    } else {
        0
    };
    let count0 = if r.last_newline != -1 && r.skip_end == r.last_newline {
        r.last_newline
    } else {
        r.buf.len() as int
    };
    let count = count0 - (if offset > count0 {
        count0
    } else {
        offset
    });
    if count == 0 {
        Seq::empty()
    } else {
        r.buf.subrange(offset, offset + count)
    }
}

/// The state a raw string's body starts in: its opening quotes read.
pub open spec fn raw_start(s: Seq<u8>, st: ScanState) -> RawScan {
    RawScan {
        st: sp_next_char(s, sp_next_char(s, st)),
        buf: Seq::empty(),
        skip_start: 0,
        first_newline: -1,
        skip_end: -1,
        last_newline: -1,
    }
}

/// Reads a raw string whose first quote is read: where the lexer then
/// stands, and the bytes the string denotes.
pub open spec fn sp_read_raw_string(s: Seq<u8>, st: ScanState) -> (ScanState, Seq<u8>) {
    let r = sp_raw_loop(s, raw_start(s, st));
    (sp_next_char(s, sp_next_char(s, r.st)), raw_string_value(r))
}

/// A token whose value is `value`.
pub open spec fn with_value(t: TokenView, value: Seq<u8>) -> TokenView {
    TokenView { value: Some(value), ..t }
}

/// The value of a hexadecimal digit, or `-1` for any other byte.
pub open spec fn hex_digit_value(c: u8) -> int {
    if '0' as u8 <= c <= '9' as u8 {
        c - ('0' as u8)
    } else if 'a' as u8 <= c <= 'f' as u8 {
        c - ('a' as u8) + 10
    } else if 'A' as u8 <= c <= 'F' as u8 {
        c - ('A' as u8) + 10
    } else {
        -1
    }
}

/// Reads a hexadecimal digit; a byte that is not one is put back.
pub open spec fn sp_read_hex_digit(s: Seq<u8>, st: ScanState) -> (int, ScanState) {
    let d = hex_digit_value(char_at(s, st.pos));
    if d >= 0 {
        (d, sp_next_char(s, st))
    } else {
        (-1, sp_back(sp_next_char(s, st)))
    }
}

/// Reads the hexadecimal digits of an escape sequence, `i` of its `digits`
/// having given `value` so far. A quote or the end ends it early, and a byte
/// that is not a digit stops it; both are errors.
pub open spec fn sp_hex_escape(
    s: Seq<u8>,
    st: ScanState,
    digits: int,
    kind: EscapeKind,
    i: int,
    value: int,
) -> (ScanState, int)
    decreases digits - i,
{
    if i >= digits {
        (st, value)
    } else if char_at(s, st.pos) == '"' as u8 || char_at(s, st.pos) == 0 {
        (sp_back(sp_lex_error(st, LexErrorKind::IncompleteEscape(kind))), value)
    } else {
        let (d, st1) = sp_read_hex_digit(s, st);
        if d == -1 {
            (sp_lex_error(st1, LexErrorKind::InvalidEscape(kind)), value)
        } else {
            sp_hex_escape(s, st1, digits, kind, i + 1, value * 16 + d)
        }
    }
}

/// The UTF-8 encoding of the code point `v`; empty above `0x10ffff`.
pub open spec fn utf8_encode(v: int) -> Seq<u8> {
    if v <= 0x7f {
        seq![v as u8]
    } else if v <= 0x7ff {
        seq![(0xc0 + v / 64) as u8, (0x80 + v % 64) as u8]
    } else if v <= 0xffff {
        seq![(0xe0 + v / 4096) as u8, (0x80 + (v / 64) % 64) as u8, (0x80 + v % 64) as u8]
    } else if v <= 0x10ffff {
        seq![
            (0xf0 + v / 262144) as u8,
            (0x80 + (v / 4096) % 64) as u8,
            (0x80 + (v / 64) % 64) as u8,
            (0x80 + v % 64) as u8,
        ]
    } else {
        Seq::empty()
    }
}

/// Reads a `\u` or `\U` escape of `digits` hexadecimal digits: where the
/// lexer then stands, and the UTF-8 bytes of the code point.
pub open spec fn sp_unicode_escape(s: Seq<u8>, st: ScanState, digits: int) -> (ScanState, Seq<u8>) {
    let (st1, v) = sp_hex_escape(s, st, digits, EscapeKind::Unicode, 0, 0);
    (st1, utf8_encode(v))
}

/// The byte a one-letter escape sequence stands for.
pub open spec fn simple_escape(e: u8) -> Option<u8> {
    if e == '"' as u8 {
        Some('"' as u8)
    } else if e == '\\' as u8 {
        Some('\\' as u8)
    } else if e == '%' as u8 {
        Some('%' as u8)
    } else if e == '0' as u8 {
        Some(0u8)
    } else if e == 'a' as u8 {
        Some(7u8)
    } else if e == 'b' as u8 {
        Some(8u8)
    } else if e == 'e' as u8 {
        Some(0x1bu8)
    } else if e == 'f' as u8 {
        Some(0x0cu8)
    } else if e == 'n' as u8 {
        Some('\n' as u8)
    } else if e == 'r' as u8 {
        Some('\r' as u8)
    } else if e == 't' as u8 {
        Some('\t' as u8)
    } else if e == 'v' as u8 {
        Some(0x0bu8)
    } else {
        None
    }
}

/// Escape sequences end at most one byte before they start, and within the
/// source.
pub proof fn lemma_hex_escape_pos(
    s: Seq<u8>,
    st: ScanState,
    digits: int,
    kind: EscapeKind,
    i: int,
    value: int,
)
    requires
        0 <= st.pos <= s.len(),
    ensures
        st.pos - 1 <= sp_hex_escape(s, st, digits, kind, i, value).0.pos <= s.len(),
    decreases digits - i,
{
    if i < digits && !(char_at(s, st.pos) == '"' as u8 || char_at(s, st.pos) == 0) {
        let (d, st1) = sp_read_hex_digit(s, st);
        if d != -1 {
            lemma_hex_escape_pos(s, st1, digits, kind, i + 1, value * 16 + d);
        }
    }
}

/// The state of reading a string: where the lexer stands, the bytes read
/// so far, and the type of token the string makes.
pub struct StrScan {
    pub st: ScanState,
    pub buf: Seq<u8>,
    pub tok: TokenType,
}

/// Reads the body of a string up to its closing quote, up to the start of
/// an interpolation (`%(`), or to the end, which is an error.
pub open spec fn sp_string_loop(s: Seq<u8>, r: StrScan) -> StrScan
    decreases s.len() + 2 - r.st.pos,
{
    let c = char_at(s, r.st.pos);
    let st1 = sp_next_char(s, r.st);
    if c == '"' as u8 {
        StrScan { st: st1, ..r }
    } else if c == '\r' as u8 {
        sp_string_loop(s, StrScan { st: st1, ..r })
    } else if c == 0 {
        StrScan { st: sp_back(sp_lex_error(st1, LexErrorKind::UnterminatedString)), ..r }
    } else if c == '%' as u8 && st1.parens.len() < MAX_INTERPOLATION_NESTING {
        let e = char_at(s, st1.pos);
        let st2 = sp_next_char(s, st1);
        let st3 = if e != '(' as u8 {
            sp_lex_error(st2, LexErrorKind::ExpectParenAfterPercent)
        } else {
            st2
        };
        StrScan {
            st: ScanState { parens: st3.parens.push(1), ..st3 },
            buf: r.buf,
            tok: TokenType::Interpolation,
        }
    } else {
        let st1b = if c == '%' as u8 {
            sp_lex_error(st1, LexErrorKind::InterpolationTooDeep)
        } else {
            st1
        };
        if c == '\\' as u8 {
            let e = char_at(s, st1b.pos);
            let st2 = sp_next_char(s, st1b);
            if simple_escape(e) is Some {
                sp_string_loop(s, StrScan { st: st2, buf: r.buf.push(simple_escape(e)->0), ..r })
            } else if e == 'u' as u8 || e == 'U' as u8 {
                let (st3, bytes) = sp_unicode_escape(
                    s,
                    st2,
                    if e == 'u' as u8 {
                        4
                    } else {
                        8
                    },
                );
                proof {
                    lemma_hex_escape_pos(
                        s,
                        st2,
                        if e == 'u' as u8 {
                            4
                        } else {
                            8
                        },
                        EscapeKind::Unicode,
                        0,
                        0,
                    );
                }
                sp_string_loop(s, StrScan { st: st3, buf: r.buf + bytes, ..r })
            } else if e == 'x' as u8 {
                let (st3, v) = sp_hex_escape(s, st2, 2, EscapeKind::Byte, 0, 0);
                proof {
                    lemma_hex_escape_pos(s, st2, 2, EscapeKind::Byte, 0, 0);
                }
                sp_string_loop(s, StrScan { st: st3, buf: r.buf.push(v as u8), ..r })
            } else {
                sp_string_loop(
                    s,
                    StrScan { st: sp_lex_error(st2, LexErrorKind::InvalidEscapeCharacter(e)), ..r },
                )
            }
        } else {
            sp_string_loop(s, StrScan { st: st1b, buf: r.buf.push(c), ..r })
        }
    }
}

/// Reads a string whose opening quote is read: where the lexer then
/// stands, the bytes the string denotes, and the token type (a string, or
/// an interpolation when it stops at `%(`).
pub open spec fn sp_read_string(s: Seq<u8>, st: ScanState) -> StrScan {
    sp_string_loop(s, StrScan { st, buf: Seq::empty(), tok: TokenType::String })
}

/// Sixteen to the power `i`.
pub open spec fn pow16(i: int) -> int
    decreases i,
{
    if i <= 0 {
        1
    } else {
        16 * pow16(i - 1)
    }
}

/// Sixteen to a power of at most eight is at most `2^32`.
pub proof fn lemma_pow16_bound(i: int)
    requires
        0 <= i <= 8,
    ensures
        1 <= pow16(i) <= pow16(8),
        pow16(8) == 0x1_0000_0000,
        pow16(2) == 256,
    decreases 8 - i,
{
    reveal_with_fuel(pow16, 9);
    if i < 8 {
        lemma_pow16_bound(i + 1);
    }
}

/// Powers of sixteen grow with the exponent.
pub proof fn lemma_pow16_mono(i: int, j: int)
    requires
        0 <= i <= j,
    ensures
        pow16(i) <= pow16(j),
    decreases j - i,
{
    if i < j {
        lemma_pow16_mono(i, j - 1);
        assert(pow16(j) == 16 * pow16(j - 1));
        lemma_pow16_pos(j - 1);
    }
}

/// Powers of sixteen are positive.
pub proof fn lemma_pow16_pos(i: int)
    ensures
        pow16(i) >= 1,
    decreases i,
{
    if i > 0 {
        lemma_pow16_pos(i - 1);
    }
}

/// The byte a one-letter escape sequence stands for.
fn escape_byte(e: u8) -> (r: Option<u8>)
    ensures
        r == simple_escape(e),
{
    if e == ('"' as u8) {
        Some('"' as u8)
    } else if e == ('\\' as u8) {
        Some('\\' as u8)
    } else if e == ('%' as u8) {
        Some('%' as u8)
    } else if e == ('0' as u8) {
        Some(0u8)
    } else if e == ('a' as u8) {
        Some(7u8)
    } else if e == ('b' as u8) {
        Some(8u8)
    } else if e == ('e' as u8) {
        Some(0x1bu8)
    } else if e == ('f' as u8) {
        Some(0x0cu8)
    } else if e == ('n' as u8) {
        Some('\n' as u8)
    } else if e == ('r' as u8) {
        Some('\r' as u8)
    } else if e == ('t' as u8) {
        Some('\t' as u8)
    } else if e == ('v' as u8) {
        Some(0x0bu8)
    } else {
        None
    }
}

/// Appends the UTF-8 encoding of `v` to `string`.
pub fn write_utf8(vm: &VM, string: &mut Buffer<u8>, v: u32)
    requires
        old(string).wf(),
        old(string).count + 4 <= MAX_BUFFER_COUNT,
    ensures
        final(string).wf(),
        final(string).data@ == old(string).data@ + utf8_encode(v as int),
        final(string).count <= old(string).count + 4,
{
    if v <= 0x7f {
        string.write(vm, v as u8);
    } else if v <= 0x7ff {
        string.write(vm, (0xc0 + v / 64) as u8);
        string.write(vm, (0x80 + v % 64) as u8);
    } else if v <= 0xffff {
        string.write(vm, (0xe0 + v / 4096) as u8);
        string.write(vm, (0x80 + (v / 64) % 64) as u8);
        string.write(vm, (0x80 + v % 64) as u8);
    } else if v <= 0x10ffff {
        string.write(vm, (0xf0 + v / 262144) as u8);
        string.write(vm, (0x80 + (v / 4096) % 64) as u8);
        string.write(vm, (0x80 + (v / 64) % 64) as u8);
        string.write(vm, (0x80 + v % 64) as u8);
    }
    assert(string.data@ =~= old(string).data@ + utf8_encode(v as int));
}

/// A byte that may start a name.
pub open spec fn is_name(c: u8) -> bool {
    ('a' as u8 <= c <= 'z' as u8) || ('A' as u8 <= c <= 'Z' as u8) || c == '_' as u8
}

/// A decimal digit.
pub open spec fn is_digit(c: u8) -> bool {
    '0' as u8 <= c <= '9' as u8
}

/// The end of the run of name bytes and digits that starts at `pos`.
pub open spec fn name_end(s: Seq<u8>, pos: int) -> int
    decreases s.len() - pos,
{
    if is_name(char_at(s, pos)) || is_digit(char_at(s, pos)) {
        name_end(s, pos + 1)
    } else {
        pos
    }
}

/// The end of the run of decimal digits that starts at `pos`.
pub open spec fn digits_end(s: Seq<u8>, pos: int) -> int
    decreases s.len() - pos,
{
    if is_digit(char_at(s, pos)) {
        digits_end(s, pos + 1)
    } else {
        pos
    }
}

/// The end of the run of spaces, tabs and carriage returns that starts at
/// `pos`.
pub open spec fn blank_end(s: Seq<u8>, pos: int) -> int
    decreases s.len() - pos,
{
    let c = char_at(s, pos);
    if c == ' ' as u8 || c == '\r' as u8 || c == '\t' as u8 {
        blank_end(s, pos + 1)
    } else {
        pos
    }
}

/// The keyword a name spells, if it spells one.
pub open spec fn keyword_type(w: Seq<u8>) -> Option<TokenType> {
    if w == seq!['b' as u8, 'r' as u8, 'e' as u8, 'a' as u8, 'k' as u8] {
        Some(TokenType::Break)
    } else if w == seq!['c' as u8, 'o' as u8, 'n' as u8, 't' as u8, 'i' as u8, 'n' as u8, 'u' as u8, 'e' as u8] {
        Some(TokenType::Continue)
    } else if w == seq!['c' as u8, 'l' as u8, 'a' as u8, 's' as u8, 's' as u8] {
        Some(TokenType::Class)
    } else if w == seq!['c' as u8, 'o' as u8, 'n' as u8, 's' as u8, 't' as u8, 'r' as u8, 'u' as u8, 'c' as u8, 't' as u8] {
        Some(TokenType::Construct)
    } else if w == seq!['e' as u8, 'l' as u8, 's' as u8, 'e' as u8] {
        Some(TokenType::Else)
    } else if w == seq!['f' as u8, 'a' as u8, 'l' as u8, 's' as u8, 'e' as u8] {
        Some(TokenType::False)
    } else if w == seq!['f' as u8, 'o' as u8, 'r' as u8] {
        Some(TokenType::For)
    } else if w == seq!['f' as u8, 'o' as u8, 'r' as u8, 'e' as u8, 'i' as u8, 'g' as u8, 'n' as u8] {
        Some(TokenType::Foreign)
    } else if w == seq!['i' as u8, 'f' as u8] {
        Some(TokenType::If)
    } else if w == seq!['i' as u8, 'm' as u8, 'p' as u8, 'o' as u8, 'r' as u8, 't' as u8] {
        Some(TokenType::Import)
    } else if w == seq!['a' as u8, 's' as u8] {
        Some(TokenType::As)
    } else if w == seq!['i' as u8, 'n' as u8] {
        Some(TokenType::In)
    } else if w == seq!['i' as u8, 's' as u8] {
        Some(TokenType::Is)
    } else if w == seq!['n' as u8, 'u' as u8, 'l' as u8, 'l' as u8] {
        Some(TokenType::Null)
    } else if w == seq!['r' as u8, 'e' as u8, 't' as u8, 'u' as u8, 'r' as u8, 'n' as u8] {
        Some(TokenType::Return)
    } else if w == seq!['s' as u8, 't' as u8, 'a' as u8, 't' as u8, 'i' as u8, 'c' as u8] {
        Some(TokenType::Static)
    } else if w == seq!['s' as u8, 'u' as u8, 'p' as u8, 'e' as u8, 'r' as u8] {
        Some(TokenType::Super)
    } else if w == seq!['t' as u8, 'h' as u8, 'i' as u8, 's' as u8] {
        Some(TokenType::This)
    } else if w == seq!['t' as u8, 'r' as u8, 'u' as u8, 'e' as u8] {
        Some(TokenType::True)
    } else if w == seq!['v' as u8, 'a' as u8, 'r' as u8] {
        Some(TokenType::Var)
    } else if w == seq!['w' as u8, 'h' as u8, 'i' as u8, 'l' as u8, 'e' as u8] {
        Some(TokenType::While)
    } else {
        None
    }
}

/// Reads a name whose first byte, `first`, is read; a name that spells a
/// keyword makes that keyword's token. Returns where the lexer then stands,
/// the token type and the name's bytes.
pub open spec fn sp_read_name(
    s: Seq<u8>,
    st: ScanState,
    token_start: int,
    t: TokenType,
    first: u8,
) -> (ScanState, TokenType, Seq<u8>) {
    let end = name_end(s, st.pos);
    let ty = match keyword_type(s.subrange(token_start, end)) {
        Some(k) => k,
        None => t,
    };
    (ScanState { pos: end, ..st }, ty, seq![first] + s.subrange(st.pos, end))
}

/// Reads the rest of a decimal number: its digits, a fraction when a digit
/// follows the dot, and an exponent, which must have a digit.
pub open spec fn sp_read_number(s: Seq<u8>, st: ScanState) -> ScanState {
    let p1 = digits_end(s, st.pos);
    let p2 = if char_at(s, p1) == '.' as u8 && is_digit(peek_next_at(s, p1)) {
        digits_end(s, p1 + 1)
    } else {
        p1
    };
    if char_at(s, p2) == 'e' as u8 || char_at(s, p2) == 'E' as u8 {
        let p3 = p2 + 1;
        let p4 = if char_at(s, p3) == '+' as u8 || char_at(s, p3) == '-' as u8 {
            p3 + 1
        } else {
            p3
        };
        let st4 = ScanState { pos: p4, ..st };
        let st5 = if !is_digit(char_at(s, p4)) {
            sp_lex_error(st4, LexErrorKind::UnterminatedScientificNotation)
        } else {
            st4
        };
        ScanState { pos: digits_end(s, p4), ..st5 }
    } else {
        ScanState { pos: p2, ..st }
    }
}

/// Reads hexadecimal digits until a byte that is not one, which is read
/// and put back.
pub open spec fn sp_hex_run(s: Seq<u8>, st: ScanState) -> ScanState
    decreases s.len() - st.pos,
{
    let (d, st1) = sp_read_hex_digit(s, st);
    if d == -1 {
        st1
    } else {
        sp_hex_run(s, st1)
    }
}

/// The value of a run of hexadecimal digits.
pub open spec fn hex_value(w: Seq<u8>) -> int
    decreases w.len(),
{
    if w.len() == 0 {
        0
    } else {
        hex_value(w.drop_last()) * 16 + hex_digit_value(w.last())
    }
}

/// Reads a hexadecimal number whose `0` is read: its `x` and its digits.
/// A value above `i64::MAX` is an error.
pub open spec fn sp_read_hex_number(s: Seq<u8>, st: ScanState, token_start: int) -> ScanState {
    let st1 = sp_hex_run(s, sp_next_char(s, st));
    if hex_value(s.subrange(token_start + 2, st1.pos)) > i64::MAX {
        sp_lex_error(st1, LexErrorKind::NumberTooLarge)
    } else {
        st1
    }
}

/// Whether the bytes of `s` from `start` up to `end` are `w`.
fn spells(s: &[u8], start: usize, end: usize, w: &[u8]) -> (r: bool)
    requires
        start <= end <= s@.len(),
    ensures
        r == (s@.subrange(start as int, end as int) == w@),
{
    if end - start != w.len() {
        return false;
    }
    let mut i: usize = 0;
    while i < w.len()
        invariant
            start <= end <= s@.len(),
            end - start == w@.len(),
            0 <= i <= w@.len(),
            forall|j: int| 0 <= j < i ==> s@[start + j] == w@[j],
        decreases w@.len() - i,
    {
        if s[start + i] != w[i] {
            assert(s@.subrange(start as int, end as int)[i as int] != w@[i as int]);
            return false;
        }
        i = i + 1;
    }
    assert(s@.subrange(start as int, end as int) =~= w@);
    true
}

/// The keyword that the bytes of `s` from `start` up to `end` spell.
fn keyword_at(s: &[u8], start: usize, end: usize) -> (k: Option<TokenType>)
    requires
        start <= end <= s@.len(),
    ensures
        k == keyword_type(s@.subrange(start as int, end as int)),
{
        if spells(s, start, end, ['b' as u8, 'r' as u8, 'e' as u8, 'a' as u8, 'k' as u8].as_slice()) {
            Some(TokenType::Break)
        } else if spells(s, start, end, ['c' as u8, 'o' as u8, 'n' as u8, 't' as u8, 'i' as u8, 'n' as u8, 'u' as u8, 'e' as u8].as_slice()) {
            Some(TokenType::Continue)
        } else if spells(s, start, end, ['c' as u8, 'l' as u8, 'a' as u8, 's' as u8, 's' as u8].as_slice()) {
            Some(TokenType::Class)
        } else if spells(s, start, end, ['c' as u8, 'o' as u8, 'n' as u8, 's' as u8, 't' as u8, 'r' as u8, 'u' as u8, 'c' as u8, 't' as u8].as_slice()) {
            Some(TokenType::Construct)
        } else if spells(s, start, end, ['e' as u8, 'l' as u8, 's' as u8, 'e' as u8].as_slice()) {
            Some(TokenType::Else)
        } else if spells(s, start, end, ['f' as u8, 'a' as u8, 'l' as u8, 's' as u8, 'e' as u8].as_slice()) {
            Some(TokenType::False)
        } else if spells(s, start, end, ['f' as u8, 'o' as u8, 'r' as u8].as_slice()) {
            Some(TokenType::For)
        } else if spells(s, start, end, ['f' as u8, 'o' as u8, 'r' as u8, 'e' as u8, 'i' as u8, 'g' as u8, 'n' as u8].as_slice()) {
            Some(TokenType::Foreign)
        } else if spells(s, start, end, ['i' as u8, 'f' as u8].as_slice()) {
            Some(TokenType::If)
        } else if spells(s, start, end, ['i' as u8, 'm' as u8, 'p' as u8, 'o' as u8, 'r' as u8, 't' as u8].as_slice()) {
            Some(TokenType::Import)
        } else if spells(s, start, end, ['a' as u8, 's' as u8].as_slice()) {
            Some(TokenType::As)
        } else if spells(s, start, end, ['i' as u8, 'n' as u8].as_slice()) {
            Some(TokenType::In)
        } else if spells(s, start, end, ['i' as u8, 's' as u8].as_slice()) {
            Some(TokenType::Is)
        } else if spells(s, start, end, ['n' as u8, 'u' as u8, 'l' as u8, 'l' as u8].as_slice()) {
            Some(TokenType::Null)
        } else if spells(s, start, end, ['r' as u8, 'e' as u8, 't' as u8, 'u' as u8, 'r' as u8, 'n' as u8].as_slice()) {
            Some(TokenType::Return)
        } else if spells(s, start, end, ['s' as u8, 't' as u8, 'a' as u8, 't' as u8, 'i' as u8, 'c' as u8].as_slice()) {
            Some(TokenType::Static)
        } else if spells(s, start, end, ['s' as u8, 'u' as u8, 'p' as u8, 'e' as u8, 'r' as u8].as_slice()) {
            Some(TokenType::Super)
        } else if spells(s, start, end, ['t' as u8, 'h' as u8, 'i' as u8, 's' as u8].as_slice()) {
            Some(TokenType::This)
        } else if spells(s, start, end, ['t' as u8, 'r' as u8, 'u' as u8, 'e' as u8].as_slice()) {
            Some(TokenType::True)
        } else if spells(s, start, end, ['v' as u8, 'a' as u8, 'r' as u8].as_slice()) {
            Some(TokenType::Var)
        } else if spells(s, start, end, ['w' as u8, 'h' as u8, 'i' as u8, 'l' as u8, 'e' as u8].as_slice()) {
            Some(TokenType::While)
        } else {
            None
        }
}

/// A byte that may start a name.
pub fn is_name_char(c: u8) -> (r: bool)
    ensures
        r == is_name(c),
{
    (c >= ('a' as u8) && c <= ('z' as u8)) || (c >= ('A' as u8) && c <= ('Z' as u8)) || c == ('_'
        as u8)
}

/// A decimal digit.
pub fn is_digit_char(c: u8) -> (r: bool)
    ensures
        r == is_digit(c),
{
    c >= ('0' as u8) && c <= ('9' as u8)
}

/// The value of the hexadecimal digits of `s` from `start` up to `end`,
/// or `None` when it is above `i64::MAX`.
fn hex_literal_value(s: &[u8], start: usize, end: usize) -> (r: Option<u64>)
    requires
        start <= end <= s@.len(),
        forall|i: int| start <= i < end ==> hex_digit_value(#[trigger] s@[i]) >= 0,
    ensures
        match r {
            Some(v) => v as int == hex_value(s@.subrange(start as int, end as int)) && v
                <= i64::MAX,
            None => hex_value(s@.subrange(start as int, end as int)) > i64::MAX,
        },
{
    let mut value: u64 = 0;
    let mut i = start;
    while i < end
        invariant
            start <= i <= end <= s@.len(),
            forall|j: int| start <= j < end ==> hex_digit_value(#[trigger] s@[j]) >= 0,
            value as int == hex_value(s@.subrange(start as int, i as int)),
            value <= i64::MAX,
        decreases end - i,
    {
        let c = s[i];
        let d: u64 = if c >= ('0' as u8) && c <= ('9' as u8) {
            (c - ('0' as u8)) as u64
        } else if c >= ('a' as u8) && c <= ('f' as u8) {
            (c - ('a' as u8) + 10) as u64
        } else {
            (c - ('A' as u8) + 10) as u64
        };
        assert(hex_digit_value(s@[i as int]) >= 0);
        assert(s@.subrange(start as int, i + 1).drop_last() =~= s@.subrange(start as int, i as int));
        if value > (0x7fff_ffff_ffff_ffff - d) / 16 {
            proof {
                lemma_hex_value_grows(s@, start as int, i + 1, end as int);
            }
            return None;
        }
        value = value * 16 + d;
        i = i + 1;
    }
    Some(value)
}

/// A run of digits ends within the source.
pub proof fn lemma_digits_end_bound(s: Seq<u8>, pos: int)
    requires
        0 <= pos <= s.len(),
    ensures
        pos <= digits_end(s, pos) <= s.len(),
    decreases s.len() - pos,
{
    if is_digit(char_at(s, pos)) {
        lemma_digits_end_bound(s, pos + 1);
    }
}

/// Appending hexadecimal digits never makes the value smaller.
pub proof fn lemma_hex_value_grows(s: Seq<u8>, start: int, i: int, end: int)
    requires
        0 <= start <= i <= end <= s.len(),
        forall|j: int| start <= j < end ==> hex_digit_value(#[trigger] s[j]) >= 0,
    ensures
        hex_value(s.subrange(start, i)) <= hex_value(s.subrange(start, end)),
    decreases end - i,
{
    if i < end {
        lemma_hex_value_grows(s, start, i, end - 1);
        assert(s.subrange(start, end).drop_last() =~= s.subrange(start, end - 1));
        assert(hex_value(s.subrange(start, end - 1)) >= 0) by {
            let w = s.subrange(start, end - 1);
            assert forall|k: int| 0 <= k < w.len() implies hex_digit_value(#[trigger] w[k])
                >= 0 by {
                assert(w[k] == s[start + k]);
            }
            lemma_hex_value_nonneg(w);
        }
        assert(hex_digit_value(s[end - 1]) >= 0);
        assert(s.subrange(start, end).last() == s[end - 1]);
    }
}

/// Values of hexadecimal digits are never negative.
pub proof fn lemma_hex_value_nonneg(w: Seq<u8>)
    requires
        forall|i: int| 0 <= i < w.len() ==> hex_digit_value(#[trigger] w[i]) >= 0,
    ensures
        hex_value(w) >= 0,
    decreases w.len(),
{
    if w.len() > 0 {
        assert forall|i: int| 0 <= i < w.drop_last().len() implies hex_digit_value(
            #[trigger] w.drop_last()[i],
        ) >= 0 by {
            assert(w.drop_last()[i] == w[i]);
        }
        lemma_hex_value_nonneg(w.drop_last());
        assert(hex_digit_value(w[w.len() - 1]) >= 0);
    }
}

/// The lexer after making one token: where it stands, where the token
/// starts, and the token.
pub struct LexOut {
    pub st: ScanState,
    pub token_start: int,
    pub next: TokenView,
}

/// Makes a token of type `t` from `token_start` up to the read position.
pub open spec fn lex_tok(st: ScanState, token_start: int, next: TokenView, t: TokenType) -> LexOut {
    LexOut { st, token_start, next: sp_make_token(next, t, token_start, st) }
}

/// Makes a token of type `two` if the next byte is `c`, consuming it, and
/// of type `one` otherwise.
pub open spec fn lex_two(
    s: Seq<u8>,
    st: ScanState,
    token_start: int,
    next: TokenView,
    c: u8,
    two: TokenType,
    one: TokenType,
) -> LexOut {
    let (m, st1) = sp_match_char(s, st, c);
    lex_tok(
        st1,
        token_start,
        next,
        if m {
            two
        } else {
            one
        },
    )
}

/// Makes the string or interpolation token of a string whose opening quote
/// (or closing parenthesis of an interpolation) is read.
pub open spec fn lex_string(s: Seq<u8>, st: ScanState, token_start: int, next: TokenView) -> LexOut {
    let r = sp_read_string(s, st);
    LexOut {
        st: r.st,
        token_start,
        next: with_value(sp_make_token(next, r.tok, token_start, r.st), r.buf),
    }
}

/// Makes the token of a name, field or keyword whose first byte is read.
pub open spec fn lex_name(
    s: Seq<u8>,
    st: ScanState,
    token_start: int,
    next: TokenView,
    t: TokenType,
    first: u8,
) -> LexOut {
    let (st1, ty, v) = sp_read_name(s, st, token_start, t, first);
    LexOut { st: st1, token_start, next: with_value(sp_make_token(next, ty, token_start, st1), v) }
}

/// Makes a number token that ends where `st` stands; its value is not
/// computed here.
pub open spec fn lex_number(st: ScanState, token_start: int, next: TokenView) -> LexOut {
    LexOut {
        st,
        token_start,
        next: TokenView { value: None, ..sp_make_token(next, TokenType::Number, token_start, st) },
    }
}

/// The token type of a byte that is a token by itself.
pub open spec fn single_char_token(c: u8) -> Option<TokenType> {
    if c == '[' as u8 {
        Some(TokenType::LeftBracket)
    } else if c == ']' as u8 {
        Some(TokenType::RightBracket)
    } else if c == '{' as u8 {
        Some(TokenType::LeftBrace)
    } else if c == '}' as u8 {
        Some(TokenType::RightBrace)
    } else if c == ':' as u8 {
        Some(TokenType::Colon)
    } else if c == ',' as u8 {
        Some(TokenType::Comma)
    } else if c == '*' as u8 {
        Some(TokenType::Star)
    } else if c == '%' as u8 {
        Some(TokenType::Percent)
    } else if c == '^' as u8 {
        Some(TokenType::Caret)
    } else if c == '+' as u8 {
        Some(TokenType::Plus)
    } else if c == '-' as u8 {
        Some(TokenType::Minus)
    } else if c == '~' as u8 {
        Some(TokenType::Tilde)
    } else if c == '?' as u8 {
        Some(TokenType::Question)
    } else if c == '\n' as u8 {
        Some(TokenType::Line)
    } else {
        None
    }
}

/// The error for a byte that starts no token.
pub open spec fn invalid_char_error(c: u8) -> LexErrorKind {
    if 32 <= c <= 126 {
        LexErrorKind::InvalidCharacter(c)
    } else {
        LexErrorKind::InvalidByte(c)
    }
}

/// One step of lexing: either a token is made, or blanks or a comment
/// were skipped and lexing goes on from the given state.
pub enum LexStep {
    Done(LexOut),
    Skip(ScanState),
}

/// Lexes a parenthesis, whose byte `c` is read. Inside an interpolation
/// a parenthesis counts towards the interpolation's open parentheses, and
/// the one that closes the interpolation resumes the string around it.
#[verifier::opaque]
pub open spec fn sp_lex_paren(s: Seq<u8>, st1: ScanState, ts: int, next: TokenView, c: u8) -> LexOut {
    let n = st1.parens.len();
    if c == '(' as u8 {
        let st2 = if n > 0 {
            ScanState { parens: st1.parens.update(n - 1, (st1.parens[n - 1] + 1) as i32), ..st1 }
        } else {
            st1
        };
        lex_tok(st2, ts, next, TokenType::LeftParen)
    } else if n > 0 && st1.parens[n - 1] - 1 == 0 {
        lex_string(s, ScanState { parens: st1.parens.drop_last(), ..st1 }, ts, next)
    } else {
        let st2 = if n > 0 {
            ScanState { parens: st1.parens.update(n - 1, (st1.parens[n - 1] - 1) as i32), ..st1 }
        } else {
            st1
        };
        lex_tok(st2, ts, next, TokenType::RightParen)
    }
}

/// The bytes that start an operator of one or more bytes, a comment, or a
/// run of blanks.
pub open spec fn is_punct_start(c: u8) -> bool {
    c == '#' as u8 || c == '|' as u8 || c == '&' as u8 || c == '=' as u8 || c == '.' as u8 || c
        == '/' as u8 || c == '<' as u8 || c == '>' as u8 || c == ' ' as u8 || c == '\r' as u8
        || c == '\t' as u8
}

/// Lexes an operator, a comment or blanks, whose first byte `c` is read.
#[verifier::opaque]
pub open spec fn sp_lex_punct(s: Seq<u8>, st1: ScanState, ts: int, next: TokenView, c: u8) -> LexStep {
    if c == '#' as u8 {
        if st1.line == 1 && char_at(s, st1.pos) == '!' as u8 && peek_next_at(s, st1.pos)
            == '/' as u8 {
            LexStep::Skip(ScanState { pos: line_comment_end(s, st1.pos), ..st1 })
        } else {
            LexStep::Done(lex_tok(st1, ts, next, TokenType::Hash))
        }
    } else if c == '|' as u8 {
        LexStep::Done(lex_two(s, st1, ts, next, '|' as u8, TokenType::PipePipe, TokenType::Pipe))
    } else if c == '&' as u8 {
        LexStep::Done(lex_two(s, st1, ts, next, '&' as u8, TokenType::AmpAmp, TokenType::Amp))
    } else if c == '=' as u8 {
        LexStep::Done(lex_two(s, st1, ts, next, '=' as u8, TokenType::EQEQ, TokenType::EQ))
    } else if c == '.' as u8 {
        let (m, st2) = sp_match_char(s, st1, '.' as u8);
        if m {
            LexStep::Done(
                lex_two(s, st2, ts, next, '.' as u8, TokenType::DotDotDot, TokenType::DotDot),
            )
        } else {
            LexStep::Done(lex_tok(st2, ts, next, TokenType::Dot))
        }
    } else if c == '/' as u8 {
        let (m1, st2) = sp_match_char(s, st1, '/' as u8);
        if m1 {
            LexStep::Skip(ScanState { pos: line_comment_end(s, st2.pos), ..st2 })
        } else {
            let (m2, st3) = sp_match_char(s, st2, '*' as u8);
            if m2 {
                LexStep::Skip(sp_block_comment(s, st3, 1))
            } else {
                LexStep::Done(lex_tok(st3, ts, next, TokenType::Slash))
            }
        }
    } else if c == '<' as u8 {
        let (m, st2) = sp_match_char(s, st1, '<' as u8);
        if m {
            LexStep::Done(lex_tok(st2, ts, next, TokenType::LTLT))
        } else {
            LexStep::Done(lex_two(s, st2, ts, next, '=' as u8, TokenType::LTEQ, TokenType::LT))
        }
    } else if c == '>' as u8 {
        let (m, st2) = sp_match_char(s, st1, '>' as u8);
        if m {
            LexStep::Done(lex_tok(st2, ts, next, TokenType::GTGT))
        } else {
            LexStep::Done(lex_two(s, st2, ts, next, '=' as u8, TokenType::GTEQ, TokenType::GT))
        }
    } else {
        LexStep::Skip(ScanState { pos: blank_end(s, st1.pos), ..st1 })
    }
}

/// Lexes a string, name, field, keyword or number, whose first byte `c` is
/// read; any other byte is an error.
#[verifier::opaque]
pub open spec fn sp_lex_literal(s: Seq<u8>, st1: ScanState, ts: int, next: TokenView, c: u8) -> LexOut {
    if c == '"' as u8 {
        if char_at(s, st1.pos) == '"' as u8 && peek_next_at(s, st1.pos) == '"' as u8 {
            let (st2, v) = sp_read_raw_string(s, st1);
            LexOut {
                st: st2,
                token_start: ts,
                next: with_value(sp_make_token(next, TokenType::String, ts, st2), v),
            }
        } else {
            lex_string(s, st1, ts, next)
        }
    } else if c == '_' as u8 {
        lex_name(
            s,
            st1,
            ts,
            next,
            if char_at(s, st1.pos) == '_' as u8 {
                TokenType::StaticField
            } else {
                TokenType::Field
            },
            c,
        )
    } else if c == '0' as u8 && char_at(s, st1.pos) == 'x' as u8 {
        lex_number(sp_read_hex_number(s, st1, ts), ts, next)
    } else if is_name(c) {
        lex_name(s, st1, ts, next, TokenType::Name, c)
    } else if is_digit(c) {
        lex_number(sp_read_number(s, st1), ts, next)
    } else {
        LexOut {
            st: sp_lex_error(st1, invalid_char_error(c)),
            token_start: ts,
            next: TokenView { tok_type: TokenType::Error, length: 0, ..next },
        }
    }
}

/// One step of lexing from a byte that is not the end.
pub open spec fn sp_lex_one(s: Seq<u8>, st: ScanState, next: TokenView) -> LexStep {
    let ts = st.pos;
    let c = char_at(s, ts);
    let st1 = sp_next_char(s, st);
    if c == '(' as u8 || c == ')' as u8 {
        LexStep::Done(sp_lex_paren(s, st1, ts, next, c))
    } else if single_char_token(c) is Some {
        LexStep::Done(lex_tok(st1, ts, next, single_char_token(c)->0))
    } else if is_punct_start(c) {
        sp_lex_punct(s, st1, ts, next, c)
    } else {
        LexStep::Done(sp_lex_literal(s, st1, ts, next, c))
    }
}

/// A step that skips ends further on, within the source.
pub proof fn lemma_lex_one_skip(s: Seq<u8>, st: ScanState, next: TokenView)
    requires
        0 <= st.pos,
        char_at(s, st.pos) != 0,
    ensures
        sp_lex_one(s, st, next) matches LexStep::Skip(st2) ==> st.pos < st2.pos <= s.len(),
{
    reveal(sp_lex_punct);
    let st1 = sp_next_char(s, st);
    lemma_line_comment_end_bound(s, st1.pos);
    lemma_blank_end_bound(s, st1.pos);
    let (m1, st2) = sp_match_char(s, st1, '/' as u8);
    if m1 {
        lemma_line_comment_end_bound(s, st2.pos);
    }
    let (m2, st3) = sp_match_char(s, st2, '*' as u8);
    if m2 {
        lemma_block_comment_bound(s, st3, 1);
    }
}

/// Lexes the next token from where `st` stands: blanks and comments are
/// skipped, and the end of the source makes an end-of-file token. `next`
/// is the token made before, whose value a token without a value of its
/// own keeps.
pub open spec fn sp_lex(s: Seq<u8>, st: ScanState, next: TokenView) -> LexOut
    decreases s.len() + 2 - st.pos,
{
    if char_at(s, st.pos) == 0 || st.pos < 0 {
        lex_tok(st, st.pos, next, TokenType::EOF)
    } else {
        match sp_lex_one(s, st, next) {
            LexStep::Done(out) => out,
            LexStep::Skip(st2) => {
                proof {
                    lemma_lex_one_skip(s, st, next);
                }
                sp_lex(s, st2, next)
            },
        }
    }
}

/// A line comment ends within the source.
pub proof fn lemma_line_comment_end_bound(s: Seq<u8>, pos: int)
    requires
        0 <= pos <= s.len(),
    ensures
        pos <= line_comment_end(s, pos) <= s.len(),
    decreases s.len() - pos,
{
    if !(char_at(s, pos) == '\n' as u8 || char_at(s, pos) == 0) {
        lemma_line_comment_end_bound(s, pos + 1);
    }
}

/// A run of blanks ends within the source.
pub proof fn lemma_blank_end_bound(s: Seq<u8>, pos: int)
    requires
        0 <= pos <= s.len(),
    ensures
        pos <= blank_end(s, pos) <= s.len(),
    decreases s.len() - pos,
{
    let c = char_at(s, pos);
    if c == ' ' as u8 || c == '\r' as u8 || c == '\t' as u8 {
        lemma_blank_end_bound(s, pos + 1);
    }
}

/// A block comment ends within the source.
pub proof fn lemma_block_comment_bound(s: Seq<u8>, st: ScanState, nesting: int)
    requires
        0 <= st.pos <= s.len(),
    ensures
        st.pos <= sp_block_comment(s, st, nesting).pos <= s.len(),
    decreases s.len() - st.pos,
{
    if nesting > 0 && char_at(s, st.pos) != 0 {
        if char_at(s, st.pos) == '/' as u8 && peek_next_at(s, st.pos) == '*' as u8 {
            lemma_block_comment_bound(s, sp_next_char(s, sp_next_char(s, st)), nesting + 1);
        } else if char_at(s, st.pos) == '*' as u8 && peek_next_at(s, st.pos) == '/' as u8 {
            lemma_block_comment_bound(s, sp_next_char(s, sp_next_char(s, st)), nesting - 1);
        } else {
            lemma_block_comment_bound(s, sp_next_char(s, st), nesting);
        }
    }
}

/// What moving to the next token does: the current token becomes the
/// previous one, the next one the current one, and, unless the next token
/// is already the end of the file, a new next token is lexed.
pub open spec fn sp_next_token(v: ParserView) -> ParserView {
    if v.next.tok_type == TokenType::EOF {
        ParserView { previous: v.current, current: v.next, ..v }
    } else {
        let out = sp_lex(v.source, v.st, v.next);
        ParserView {
            source: v.source,
            module: v.module,
            print_errors: v.print_errors,
            token_start: out.token_start,
            st: out.st,
            next: out.next,
            current: v.next,
            previous: v.current,
        }
    }
}

/// The parser after `n` moves to the next token.
pub open spec fn sp_advance(v: ParserView, n: nat) -> ParserView
    decreases n,
{
    if n == 0 {
        v
    } else {
        sp_next_token(sp_advance(v, (n - 1) as nat))
    }
}

/// `b` comes from `a` by lexing: an error that occurred is still marked,
/// the errors listed before are still listed first, and whether errors are
/// listed is unchanged.
pub open spec fn keeps_errors(a: ScanState, b: ScanState) -> bool {
    &&& a.has_error ==> b.has_error
    &&& b.print == a.print
    &&& a.errors.len() <= b.errors.len()
    &&& forall|i: int| 0 <= i < a.errors.len() ==> #[trigger] b.errors[i] == a.errors[i]
}

/// Skipping a block comment keeps the errors.
pub proof fn lemma_block_comment_keeps(s: Seq<u8>, st: ScanState, nesting: int)
    ensures
        keeps_errors(st, sp_block_comment(s, st, nesting)),
    decreases s.len() - st.pos,
{
    if nesting > 0 && char_at(s, st.pos) != 0 {
        if char_at(s, st.pos) == '/' as u8 && peek_next_at(s, st.pos) == '*' as u8 {
            lemma_block_comment_keeps(s, sp_next_char(s, sp_next_char(s, st)), nesting + 1);
        } else if char_at(s, st.pos) == '*' as u8 && peek_next_at(s, st.pos) == '/' as u8 {
            lemma_block_comment_keeps(s, sp_next_char(s, sp_next_char(s, st)), nesting - 1);
        } else {
            lemma_block_comment_keeps(s, sp_next_char(s, st), nesting);
        }
    }
}

/// Reading the digits of an escape sequence keeps the errors.
pub proof fn lemma_hex_escape_keeps(
    s: Seq<u8>,
    st: ScanState,
    digits: int,
    kind: EscapeKind,
    i: int,
    value: int,
)
    ensures
        keeps_errors(st, sp_hex_escape(s, st, digits, kind, i, value).0),
    decreases digits - i,
{
    if i < digits && !(char_at(s, st.pos) == '"' as u8 || char_at(s, st.pos) == 0) {
        let (d, st1) = sp_read_hex_digit(s, st);
        if d != -1 {
            lemma_hex_escape_keeps(s, st1, digits, kind, i + 1, value * 16 + d);
        }
    }
}

/// Reading the body of a string keeps the errors.
pub proof fn lemma_string_loop_keeps(s: Seq<u8>, r: StrScan)
    ensures
        keeps_errors(r.st, sp_string_loop(s, r).st),
    decreases s.len() + 2 - r.st.pos,
{
    let c = char_at(s, r.st.pos);
    let st1 = sp_next_char(s, r.st);
    if c == '"' as u8 || c == 0 {
    } else if c == '\r' as u8 {
        lemma_string_loop_keeps(s, StrScan { st: st1, ..r });
    } else if c == '%' as u8 && st1.parens.len() < MAX_INTERPOLATION_NESTING {
    } else {
        let st1b = if c == '%' as u8 {
            sp_lex_error(st1, LexErrorKind::InterpolationTooDeep)
        } else {
            st1
        };
        if c == '\\' as u8 {
            let e = char_at(s, st1b.pos);
            let st2 = sp_next_char(s, st1b);
            if simple_escape(e) is Some {
                lemma_string_loop_keeps(s, StrScan { st: st2, buf: r.buf.push(simple_escape(e)->0), ..r });
            } else if e == 'u' as u8 || e == 'U' as u8 {
                let digits: int = if e == 'u' as u8 {
                    4
                } else {
                    8
                };
                let (st3, bytes) = sp_unicode_escape(s, st2, digits);
                lemma_hex_escape_pos(s, st2, digits, EscapeKind::Unicode, 0, 0);
                lemma_hex_escape_keeps(s, st2, digits, EscapeKind::Unicode, 0, 0);
                lemma_string_loop_keeps(s, StrScan { st: st3, buf: r.buf + bytes, ..r });
            } else if e == 'x' as u8 {
                let (st3, v) = sp_hex_escape(s, st2, 2, EscapeKind::Byte, 0, 0);
                lemma_hex_escape_pos(s, st2, 2, EscapeKind::Byte, 0, 0);
                lemma_hex_escape_keeps(s, st2, 2, EscapeKind::Byte, 0, 0);
                lemma_string_loop_keeps(s, StrScan { st: st3, buf: r.buf.push(v as u8), ..r });
            } else {
                lemma_string_loop_keeps(
                    s,
                    StrScan { st: sp_lex_error(st2, LexErrorKind::InvalidEscapeCharacter(e)), ..r },
                );
            }
        } else {
            lemma_string_loop_keeps(s, StrScan { st: st1b, buf: r.buf.push(c), ..r });
        }
    }
}

/// Reading the body of a raw string keeps the errors.
pub proof fn lemma_raw_loop_keeps(s: Seq<u8>, r: RawScan)
    ensures
        keeps_errors(r.st, sp_raw_loop(s, r).st),
    decreases s.len() - r.st.pos,
{
    let c = char_at(s, r.st.pos);
    let st1 = sp_next_char(s, r.st);
    let c1 = char_at(s, st1.pos);
    let c2 = peek_next_at(s, st1.pos);
    if c == '\r' as u8 {
        lemma_raw_loop_keeps(s, RawScan { st: st1, ..r });
    } else if c == '"' as u8 && c1 == '"' as u8 && c2 == '"' as u8 {
    } else if c == 0 || c1 == 0 || c2 == 0 {
    } else {
        let nr = sp_raw_loop(s, r);
        let count = r.buf.len() as int;
        let first_newline = if c == '\n' as u8 && r.first_newline == -1 {
            count
        } else {
            r.first_newline
        };
        let ws = c == ' ' as u8 || c == '\t' as u8;
        let skip_end = if c == '\n' as u8 || ws {
            if c == '\n' as u8 {
                count
            } else {
                r.skip_end
            }
        } else {
            -1
        };
        let skip_start1 = if r.skip_start != 1 && ws && first_newline == -1 {
            count + 1
        } else {
            r.skip_start
        };
        let skip_start = if first_newline == -1 && !ws && c != '\n' as u8 {
            -1
        } else {
            skip_start1
        };
        let last_newline = if c == '\n' as u8 {
            count
        } else {
            r.last_newline
        };
        lemma_raw_loop_keeps(
            s,
            RawScan { st: st1, buf: r.buf.push(c), skip_start, first_newline, skip_end, last_newline },
        );
    }
}

/// Reading hexadecimal digits keeps the errors.
pub proof fn lemma_hex_run_keeps(s: Seq<u8>, st: ScanState)
    ensures
        keeps_errors(st, sp_hex_run(s, st)),
    decreases s.len() - st.pos,
{
    let (d, st1) = sp_read_hex_digit(s, st);
    if d != -1 {
        lemma_hex_run_keeps(s, st1);
    }
}

/// Lexing one token keeps the errors.
pub proof fn lemma_lex_keeps(s: Seq<u8>, st: ScanState, next: TokenView)
    ensures
        keeps_errors(st, sp_lex(s, st, next).st),
    decreases s.len() + 2 - st.pos,
{
    reveal(sp_lex_paren);
    reveal(sp_lex_punct);
    reveal(sp_lex_literal);
    if !(char_at(s, st.pos) == 0 || st.pos < 0) {
        let ts = st.pos;
        let c = char_at(s, ts);
        let st1 = sp_next_char(s, st);
        let n = st1.parens.len();
        if c == '(' as u8 || c == ')' as u8 {
            if c == ')' as u8 && n > 0 && st1.parens[n - 1] - 1 == 0 {
                lemma_string_loop_keeps(
                    s,
                    StrScan {
                        st: ScanState { parens: st1.parens.drop_last(), ..st1 },
                        buf: Seq::empty(),
                        tok: TokenType::String,
                    },
                );
            }
        } else if single_char_token(c) is Some {
        } else if is_punct_start(c) {
            lemma_lex_one_skip(s, st, next);
            let (m1, st2) = sp_match_char(s, st1, '/' as u8);
            let (m2, st3) = sp_match_char(s, st2, '*' as u8);
            if c == '/' as u8 && !m1 && m2 {
                lemma_block_comment_keeps(s, st3, 1);
            }
            match sp_lex_one(s, st, next) {
                LexStep::Skip(st4) => {
                    lemma_lex_keeps(s, st4, next);
                },
                LexStep::Done(_) => {},
            }
        } else {
            if c == '"' as u8 {
                if char_at(s, st1.pos) == '"' as u8 && peek_next_at(s, st1.pos) == '"' as u8 {
                    lemma_raw_loop_keeps(s, raw_start(s, st1));
                } else {
                    lemma_string_loop_keeps(
                        s,
                        StrScan { st: st1, buf: Seq::empty(), tok: TokenType::String },
                    );
                }
            } else if c == '0' as u8 && char_at(s, st1.pos) == 'x' as u8 {
                lemma_hex_run_keeps(s, sp_next_char(s, st1));
            }
        }
    }
}

/// Moving to the next token never clears the mark that an error occurred,
/// never drops or changes an error listed before, and never changes
/// whether errors are listed.
pub proof fn law_errors_are_kept(v: ParserView)
    ensures
        keeps_errors(v.st, sp_next_token(v).st),
{
    if v.next.tok_type != TokenType::EOF {
        lemma_lex_keeps(v.source, v.st, v.next);
    }
}

/// The number of newlines among the bytes from `a` up to, not including,
/// `b`.
pub open spec fn newlines(s: Seq<u8>, a: int, b: int) -> int
    decreases b - a,
{
    if b <= a {
        0
    } else {
        newlines(s, a, b - 1) + (if char_at(s, b - 1) == '\n' as u8 {
            1int
        } else {
            0int
        })
    }
}

/// No newline stands from `p` up to, not including, `q`.
pub open spec fn flat(s: Seq<u8>, p: int, q: int) -> bool {
    &&& p <= q
    &&& forall|i: int| p <= i < q ==> #[trigger] char_at(s, i) != '\n' as u8
}

/// The line count of `st` is `line` plus the newlines read since `pos`.
pub open spec fn counts_lines(s: Seq<u8>, pos: int, line: int, st: ScanState) -> bool {
    &&& 0 <= pos <= st.pos
    &&& st.line == line + newlines(s, pos, st.pos)
}

/// `0x`, `\x`, `\u` or `\U` stands at `k`, and hexadecimal digits follow it
/// up to `i`: a byte at `i` would be read as a digit and put back.
pub open spec fn hex_run_from(s: Seq<u8>, k: int, i: int) -> bool {
    &&& 0 <= k
    &&& k + 2 <= i
    &&& (char_at(s, k) == '0' as u8 && char_at(s, k + 1) == 'x' as u8) || (char_at(s, k) == '\\'
        as u8 && (char_at(s, k + 1) == 'x' as u8 || char_at(s, k + 1) == 'u' as u8 || char_at(
        s,
        k + 1,
    ) == 'U' as u8))
    &&& forall|m: int| k + 2 <= m < i ==> hex_digit_value(#[trigger] char_at(s, m)) >= 0
}

/// `"""` stands at `j`.
pub open spec fn triple_quote_at(s: Seq<u8>, j: int) -> bool {
    char_at(s, j) == '"' as u8 && char_at(s, j + 1) == '"' as u8 && char_at(s, j + 2) == '"' as u8
}

/// Lexing from `a` to `b` never reads a newline and puts it back: no
/// newline up to `b` ends a run of hexadecimal digits after a `0x`, `\x`,
/// `\u` or `\U` that starts at or after `a`, and no newline up to `b` that
/// follows a `"""` at or after `a` stands in the last two bytes before the
/// end (where an unterminated raw string stops).
pub open spec fn never_rereads_newline_in(s: Seq<u8>, a: int, b: int) -> bool {
    &&& forall|i: int, k: int|
        0 <= i < s.len() && i <= b && a <= k && #[trigger] s[i] == '\n' as u8
            ==> !#[trigger] hex_run_from(s, k, i)
    &&& forall|i: int, j: int|
        0 <= i < s.len() && i <= b && #[trigger] s[i] == '\n' as u8 && #[trigger] triple_quote_at(
            s,
            j,
        ) && a <= j && j + 3 <= i ==> char_at(s, i + 1) != 0 && char_at(s, i + 2) != 0
}

/// Reading a byte counts it when it is a newline.
pub proof fn lemma_next_char_lines(s: Seq<u8>, pos: int, line: int, st: ScanState)
    requires
        counts_lines(s, pos, line, st),
    ensures
        counts_lines(s, pos, line, sp_next_char(s, st)),
{
}

/// Skipping bytes that are not newlines leaves the count of newlines.
pub proof fn lemma_newlines_flat(s: Seq<u8>, a: int, p: int, q: int)
    requires
        a <= p,
        flat(s, p, q),
    ensures
        newlines(s, a, q) == newlines(s, a, p),
    decreases q - p,
{
    if q > p {
        assert(char_at(s, q - 1) != '\n' as u8);
        lemma_newlines_flat(s, a, p, q - 1);
    }
}

/// A line comment holds no newline.
pub proof fn lemma_line_comment_end_flat(s: Seq<u8>, pos: int)
    ensures
        flat(s, pos, line_comment_end(s, pos)),
    decreases s.len() - pos,
{
    if !(char_at(s, pos) == '\n' as u8 || char_at(s, pos) == 0) {
        lemma_line_comment_end_flat(s, pos + 1);
    }
}

/// A run of blanks holds no newline.
pub proof fn lemma_blank_end_flat(s: Seq<u8>, pos: int)
    ensures
        flat(s, pos, blank_end(s, pos)),
    decreases s.len() - pos,
{
    let c = char_at(s, pos);
    if c == ' ' as u8 || c == '\r' as u8 || c == '\t' as u8 {
        lemma_blank_end_flat(s, pos + 1);
    }
}

/// A name holds no newline.
pub proof fn lemma_name_end_flat(s: Seq<u8>, pos: int)
    ensures
        flat(s, pos, name_end(s, pos)),
    decreases s.len() - pos,
{
    if is_name(char_at(s, pos)) || is_digit(char_at(s, pos)) {
        lemma_name_end_flat(s, pos + 1);
    }
}

/// A run of digits holds no newline.
pub proof fn lemma_digits_end_flat(s: Seq<u8>, pos: int)
    ensures
        flat(s, pos, digits_end(s, pos)),
    decreases s.len() - pos,
{
    if is_digit(char_at(s, pos)) {
        lemma_digits_end_flat(s, pos + 1);
    }
}

/// A decimal number holds no newline.
pub proof fn lemma_read_number_flat(s: Seq<u8>, st: ScanState)
    ensures
        flat(s, st.pos, sp_read_number(s, st).pos),
        sp_read_number(s, st).line == st.line,
{
    let p1 = digits_end(s, st.pos);
    lemma_digits_end_flat(s, st.pos);
    let p2 = if char_at(s, p1) == '.' as u8 && is_digit(peek_next_at(s, p1)) {
        digits_end(s, p1 + 1)
    } else {
        p1
    };
    lemma_digits_end_flat(s, p1 + 1);
    if char_at(s, p2) == 'e' as u8 || char_at(s, p2) == 'E' as u8 {
        let p3 = p2 + 1;
        let p4 = if char_at(s, p3) == '+' as u8 || char_at(s, p3) == '-' as u8 {
            p3 + 1
        } else {
            p3
        };
        lemma_digits_end_flat(s, p4);
    }
}

/// Reading the digits of an escape sequence counts the newlines read.
pub proof fn lemma_hex_escape_lines(
    s: Seq<u8>,
    pos: int,
    line: int, b: int,
    k: int,
    st: ScanState,
    digits: int,
    kind: EscapeKind,
    i: int,
    value: int,
)
    requires
        never_rereads_newline_in(s, pos, b),
        counts_lines(s, pos, line, st),
        pos <= k,
        hex_run_from(s, k, st.pos),
    ensures
        sp_hex_escape(s, st, digits, kind, i, value).0.pos <= b ==> counts_lines(
            s,
            pos,
            line,
            sp_hex_escape(s, st, digits, kind, i, value).0,
        ),
    decreases digits - i,
{
    if i < digits {
        let c = char_at(s, st.pos);
        if c == '"' as u8 || c == 0 {
            if st.pos - 1 >= k + 2 {
                assert(hex_digit_value(char_at(s, st.pos - 1)) >= 0);
            }
        } else {
            let (d, st1) = sp_read_hex_digit(s, st);
            if c == '\n' as u8 && st.pos <= b {
                assert(s[st.pos] == '\n' as u8);
                assert(!hex_run_from(s, k, st.pos));
            }
            if d != -1 {
                assert(hex_run_from(s, k, st1.pos));
                lemma_hex_escape_lines(s, pos, line, b, k, st1, digits, kind, i + 1, value * 16 + d);
            }
        }
    }
}

/// Reading the hexadecimal digits of a number counts the newlines read.
pub proof fn lemma_hex_run_lines(s: Seq<u8>, pos: int, line: int, b: int, k: int, st: ScanState)
    requires
        never_rereads_newline_in(s, pos, b),
        counts_lines(s, pos, line, st),
        pos <= k,
        hex_run_from(s, k, st.pos),
    ensures
        sp_hex_run(s, st).pos <= b ==> counts_lines(s, pos, line, sp_hex_run(s, st)),
    decreases s.len() - st.pos,
{
    let c = char_at(s, st.pos);
    let (d, st1) = sp_read_hex_digit(s, st);
    if c == '\n' as u8 && st.pos <= b {
        assert(s[st.pos] == '\n' as u8);
        assert(!hex_run_from(s, k, st.pos));
    }
    if d != -1 {
        assert(hex_run_from(s, k, st1.pos));
        lemma_hex_run_lines(s, pos, line, b, k, st1);
    }
}

/// Skipping a block comment counts the newlines read.
pub proof fn lemma_block_comment_lines(s: Seq<u8>, pos: int, line: int, st: ScanState, nesting: int)
    requires
        counts_lines(s, pos, line, st),
    ensures
        counts_lines(s, pos, line, sp_block_comment(s, st, nesting)),
    decreases s.len() - st.pos,
{
    if nesting > 0 && char_at(s, st.pos) != 0 {
        lemma_next_char_lines(s, pos, line, st);
        lemma_next_char_lines(s, pos, line, sp_next_char(s, st));
        if char_at(s, st.pos) == '/' as u8 && peek_next_at(s, st.pos) == '*' as u8 {
            lemma_block_comment_lines(s, pos, line, sp_next_char(s, sp_next_char(s, st)), nesting + 1);
        } else if char_at(s, st.pos) == '*' as u8 && peek_next_at(s, st.pos) == '/' as u8 {
            lemma_block_comment_lines(s, pos, line, sp_next_char(s, sp_next_char(s, st)), nesting - 1);
        } else {
            lemma_block_comment_lines(s, pos, line, sp_next_char(s, st), nesting);
        }
    }
}

/// Reading the body of a string ends at or after where it starts.
pub proof fn lemma_string_loop_grows(s: Seq<u8>, r: StrScan)
    ensures
        sp_string_loop(s, r).st.pos >= r.st.pos,
    decreases s.len() + 2 - r.st.pos,
{
    let c = char_at(s, r.st.pos);
    let st1 = sp_next_char(s, r.st);
    if c == '\r' as u8 {
        lemma_string_loop_grows(s, StrScan { st: st1, ..r });
    } else if c == '"' as u8 || c == 0 || (c == '%' as u8 && st1.parens.len()
        < MAX_INTERPOLATION_NESTING) {
    } else {
        let st1b = if c == '%' as u8 {
            sp_lex_error(st1, LexErrorKind::InterpolationTooDeep)
        } else {
            st1
        };
        if c == '\\' as u8 {
            let e = char_at(s, st1b.pos);
            let st2 = sp_next_char(s, st1b);
            if simple_escape(e) is Some {
                lemma_string_loop_grows(s, StrScan { st: st2, buf: r.buf.push(simple_escape(e)->0), ..r });
            } else if e == 'u' as u8 || e == 'U' as u8 {
                let digits: int = if e == 'u' as u8 {
                    4
                } else {
                    8
                };
                let (st3, bytes) = sp_unicode_escape(s, st2, digits);
                lemma_hex_escape_pos(s, st2, digits, EscapeKind::Unicode, 0, 0);
                lemma_string_loop_grows(s, StrScan { st: st3, buf: r.buf + bytes, ..r });
            } else if e == 'x' as u8 {
                let (st3, v) = sp_hex_escape(s, st2, 2, EscapeKind::Byte, 0, 0);
                lemma_hex_escape_pos(s, st2, 2, EscapeKind::Byte, 0, 0);
                lemma_string_loop_grows(s, StrScan { st: st3, buf: r.buf.push(v as u8), ..r });
            } else {
                lemma_string_loop_grows(
                    s,
                    StrScan { st: sp_lex_error(st2, LexErrorKind::InvalidEscapeCharacter(e)), ..r },
                );
            }
        } else {
            lemma_string_loop_grows(s, StrScan { st: st1b, buf: r.buf.push(c), ..r });
        }
    }
}

/// Reading the body of a string counts the newlines read.
pub proof fn lemma_string_loop_lines(s: Seq<u8>, pos: int, line: int, b: int, r: StrScan)
    requires
        never_rereads_newline_in(s, pos, b),
        counts_lines(s, pos, line, r.st),
    ensures
        sp_string_loop(s, r).st.pos <= b ==> counts_lines(s, pos, line, sp_string_loop(s, r).st),
    decreases s.len() + 2 - r.st.pos,
{
    let c = char_at(s, r.st.pos);
    let st1 = sp_next_char(s, r.st);
    lemma_next_char_lines(s, pos, line, r.st);
    lemma_next_char_lines(s, pos, line, st1);
    if c == '"' as u8 || c == 0 {
    } else if c == '\r' as u8 {
        lemma_string_loop_lines(s, pos, line, b, StrScan { st: st1, ..r });
    } else if c == '%' as u8 && st1.parens.len() < MAX_INTERPOLATION_NESTING {
    } else {
        let st1b = if c == '%' as u8 {
            sp_lex_error(st1, LexErrorKind::InterpolationTooDeep)
        } else {
            st1
        };
        if c == '\\' as u8 {
            let e = char_at(s, st1b.pos);
            let st2 = sp_next_char(s, st1b);
            lemma_next_char_lines(s, pos, line, st1b);
            if simple_escape(e) is Some {
                lemma_string_loop_lines(
                    s,
                    pos,
                    line, b,
                    StrScan { st: st2, buf: r.buf.push(simple_escape(e)->0), ..r },
                );
            } else if e == 'u' as u8 || e == 'U' as u8 {
                let digits: int = if e == 'u' as u8 {
                    4
                } else {
                    8
                };
                let (st3, bytes) = sp_unicode_escape(s, st2, digits);
                lemma_hex_escape_pos(s, st2, digits, EscapeKind::Unicode, 0, 0);
                assert(hex_run_from(s, r.st.pos, st2.pos));
                lemma_string_loop_grows(s, StrScan { st: st3, buf: r.buf + bytes, ..r });
                lemma_hex_escape_lines(s, pos, line, b, r.st.pos, st2, digits, EscapeKind::Unicode, 0, 0);
                if st3.pos <= b {
                    lemma_string_loop_lines(s, pos, line, b, StrScan { st: st3, buf: r.buf + bytes, ..r });
                }
            } else if e == 'x' as u8 {
                let (st3, v) = sp_hex_escape(s, st2, 2, EscapeKind::Byte, 0, 0);
                lemma_hex_escape_pos(s, st2, 2, EscapeKind::Byte, 0, 0);
                assert(hex_run_from(s, r.st.pos, st2.pos));
                lemma_string_loop_grows(s, StrScan { st: st3, buf: r.buf.push(v as u8), ..r });
                lemma_hex_escape_lines(s, pos, line, b, r.st.pos, st2, 2, EscapeKind::Byte, 0, 0);
                if st3.pos <= b {
                    lemma_string_loop_lines(
                        s,
                        pos,
                        line,
                        b,
                        StrScan { st: st3, buf: r.buf.push(v as u8), ..r },
                    );
                }
            } else {
                lemma_string_loop_lines(
                    s,
                    pos,
                    line, b,
                    StrScan { st: sp_lex_error(st2, LexErrorKind::InvalidEscapeCharacter(e)), ..r },
                );
            }
        } else {
            lemma_string_loop_lines(s, pos, line, b, StrScan { st: st1b, buf: r.buf.push(c), ..r });
        }
    }
}

/// Reading the body of a raw string counts the newlines read.
pub proof fn lemma_raw_loop_lines(s: Seq<u8>, pos: int, line: int, b: int, j: int, r: RawScan)
    requires
        never_rereads_newline_in(s, pos, b),
        counts_lines(s, pos, line, r.st),
        pos <= j,
        j + 3 <= r.st.pos,
        triple_quote_at(s, j),
    ensures
        sp_raw_loop(s, r).st.pos <= b ==> counts_lines(s, pos, line, sp_raw_loop(s, r).st),
    decreases s.len() - r.st.pos,
{
    let c = char_at(s, r.st.pos);
    let st1 = sp_next_char(s, r.st);
    let c1 = char_at(s, st1.pos);
    let c2 = peek_next_at(s, st1.pos);
    if c == '\n' as u8 {
        assert(s[r.st.pos] == '\n' as u8);
    }
    if c == '\r' as u8 {
        lemma_raw_loop_lines(s, pos, line, b, j, RawScan { st: st1, ..r });
    } else if c == '"' as u8 && c1 == '"' as u8 && c2 == '"' as u8 {
    } else if c == 0 || c1 == 0 || c2 == 0 {
    } else {
        let count = r.buf.len() as int;
        let first_newline = if c == '\n' as u8 && r.first_newline == -1 {
            count
        } else {
            r.first_newline
        };
        let ws = c == ' ' as u8 || c == '\t' as u8;
        let skip_end = if c == '\n' as u8 || ws {
            if c == '\n' as u8 {
                count
            } else {
                r.skip_end
            }
        } else {
            -1
        };
        let skip_start1 = if r.skip_start != 1 && ws && first_newline == -1 {
            count + 1
        } else {
            r.skip_start
        };
        let skip_start = if first_newline == -1 && !ws && c != '\n' as u8 {
            -1
        } else {
            skip_start1
        };
        let last_newline = if c == '\n' as u8 {
            count
        } else {
            r.last_newline
        };
        lemma_raw_loop_lines(
            s,
            pos,
            line, b,
            j,
            RawScan { st: st1, buf: r.buf.push(c), skip_start, first_newline, skip_end, last_newline },
        );
    }
}

/// A token made from `out` lies on the line where it ends, a line token on
/// the line of its newline; an error token keeps the line it had.
pub open spec fn token_on_its_line(out: LexOut) -> bool {
    out.next.tok_type != TokenType::Error ==> out.next.line == (if out.next.tok_type
        == TokenType::Line {
        out.st.line - 1
    } else {
        out.st.line
    })
}

/// Lexing a parenthesis counts the newlines read.
pub proof fn lemma_lex_paren_lines(
    s: Seq<u8>,
    pos: int,
    line: int, b: int,
    st1: ScanState,
    ts: int,
    next: TokenView,
    c: u8,
)
    requires
        never_rereads_newline_in(s, pos, b),
        counts_lines(s, pos, line, st1),
    ensures
        sp_lex_paren(s, st1, ts, next, c).st.pos <= b ==> counts_lines(
            s,
            pos,
            line,
            sp_lex_paren(s, st1, ts, next, c).st,
        ),
        token_on_its_line(sp_lex_paren(s, st1, ts, next, c)),
{
    reveal(sp_lex_paren);
    let n = st1.parens.len();
    if c != '(' as u8 && n > 0 && st1.parens[n - 1] - 1 == 0 {
        lemma_string_loop_lines(
            s,
            pos,
            line, b,
            StrScan {
                st: ScanState { parens: st1.parens.drop_last(), ..st1 },
                buf: Seq::empty(),
                tok: TokenType::String,
            },
        );
    }
}

/// Lexing an operator, a comment or blanks counts the newlines read.
pub proof fn lemma_lex_punct_lines(
    s: Seq<u8>,
    pos: int,
    line: int,
    st1: ScanState,
    ts: int,
    next: TokenView,
    c: u8,
)
    requires
        counts_lines(s, pos, line, st1),
    ensures
        match sp_lex_punct(s, st1, ts, next, c) {
            LexStep::Skip(st2) => counts_lines(s, pos, line, st2),
            LexStep::Done(out) => counts_lines(s, pos, line, out.st) && token_on_its_line(out),
        },
{
    reveal(sp_lex_punct);
    let st2 = sp_next_char(s, st1);
    lemma_next_char_lines(s, pos, line, st1);
    lemma_next_char_lines(s, pos, line, st2);
    lemma_next_char_lines(s, pos, line, sp_next_char(s, st2));
    let (m1, st2m) = sp_match_char(s, st1, '/' as u8);
    let (m2, st3) = sp_match_char(s, st2m, '*' as u8);
    lemma_line_comment_end_flat(s, st1.pos);
    lemma_newlines_flat(s, pos, st1.pos, line_comment_end(s, st1.pos));
    lemma_line_comment_end_flat(s, st2.pos);
    lemma_newlines_flat(s, pos, st2.pos, line_comment_end(s, st2.pos));
    lemma_blank_end_flat(s, st1.pos);
    lemma_newlines_flat(s, pos, st1.pos, blank_end(s, st1.pos));
    if c == '/' as u8 && !m1 && m2 {
        lemma_block_comment_lines(s, pos, line, st3, 1);
    }
}

/// Lexing a string, name, number or invalid byte counts the newlines read.
pub proof fn lemma_lex_literal_lines(
    s: Seq<u8>,
    pos: int,
    line: int, b: int,
    st1: ScanState,
    ts: int,
    next: TokenView,
    c: u8,
)
    requires
        never_rereads_newline_in(s, pos, b),
        counts_lines(s, pos, line, st1),
        c != 0,
        char_at(s, st1.pos - 1) == c,
        pos < st1.pos,
    ensures
        sp_lex_literal(s, st1, ts, next, c).st.pos <= b ==> counts_lines(
            s,
            pos,
            line,
            sp_lex_literal(s, st1, ts, next, c).st,
        ),
        token_on_its_line(sp_lex_literal(s, st1, ts, next, c)),
{
    reveal(sp_lex_literal);
    if c == '"' as u8 {
        if char_at(s, st1.pos) == '"' as u8 && peek_next_at(s, st1.pos) == '"' as u8 {
            let r0 = raw_start(s, st1);
            lemma_next_char_lines(s, pos, line, st1);
            lemma_next_char_lines(s, pos, line, sp_next_char(s, st1));
            assert(triple_quote_at(s, st1.pos - 1));
            lemma_raw_loop_lines(s, pos, line, b, st1.pos - 1, r0);
            let r = sp_raw_loop(s, r0);
            if r.st.pos <= b {
                lemma_next_char_lines(s, pos, line, r.st);
                lemma_next_char_lines(s, pos, line, sp_next_char(s, r.st));
            }
        } else {
            lemma_string_loop_lines(
                s,
                pos,
                line, b,
                StrScan { st: st1, buf: Seq::empty(), tok: TokenType::String },
            );
        }
    } else if c == '0' as u8 && char_at(s, st1.pos) == 'x' as u8 {
        lemma_next_char_lines(s, pos, line, st1);
        assert(hex_run_from(s, st1.pos - 1, st1.pos + 1));
        lemma_hex_run_lines(s, pos, line, b, st1.pos - 1, sp_next_char(s, st1));
    } else if is_name(c) || c == '_' as u8 {
        lemma_name_end_flat(s, st1.pos);
        lemma_newlines_flat(s, pos, st1.pos, name_end(s, st1.pos));
    } else if is_digit(c) {
        lemma_read_number_flat(s, st1);
        lemma_newlines_flat(s, pos, st1.pos, sp_read_number(s, st1).pos);
    }
}

/// Lexing one token counts the newlines read, and puts the token on the
/// line where it ends, a line token on the line of its newline.
pub proof fn lemma_lex_lines(s: Seq<u8>, pos: int, line: int, b: int, st: ScanState, next: TokenView)
    requires
        never_rereads_newline_in(s, pos, b),
        counts_lines(s, pos, line, st),
    ensures
        sp_lex(s, st, next).st.pos <= b ==> counts_lines(s, pos, line, sp_lex(s, st, next).st),
        token_on_its_line(sp_lex(s, st, next)),
    decreases s.len() + 2 - st.pos,
{
    if !(char_at(s, st.pos) == 0 || st.pos < 0) {
        let ts = st.pos;
        let c = char_at(s, ts);
        let st1 = sp_next_char(s, st);
        lemma_next_char_lines(s, pos, line, st);
        if c == '(' as u8 || c == ')' as u8 {
            lemma_lex_paren_lines(s, pos, line, b, st1, ts, next, c);
        } else if single_char_token(c) is Some {
        } else if is_punct_start(c) {
            lemma_lex_one_skip(s, st, next);
            lemma_lex_punct_lines(s, pos, line, st1, ts, next, c);
            match sp_lex_one(s, st, next) {
                LexStep::Skip(st4) => {
                    lemma_lex_lines(s, pos, line, b, st4, next);
                },
                LexStep::Done(_) => {},
            }
        } else {
            lemma_lex_literal_lines(s, pos, line, b, st1, ts, next, c);
        }
    }
}

/// Where the lexer reads no newline and puts it back within the bytes it
/// lexes, moving to the next token counts exactly the newlines it reads,
/// and a new token lies on the line where it ends: a line token on the line
/// of its newline.
pub proof fn law_line_counts_newlines(v: ParserView)
    requires
        0 <= v.st.pos,
        never_rereads_newline_in(v.source, v.st.pos, sp_next_token(v).st.pos),
    ensures
        v.st.pos <= sp_next_token(v).st.pos,
        sp_next_token(v).st.line == v.st.line + newlines(v.source, v.st.pos, sp_next_token(v).st.pos),
        v.next.tok_type != TokenType::EOF && sp_next_token(v).next.tok_type != TokenType::Error
            ==> sp_next_token(v).next.line == (if sp_next_token(v).next.tok_type == TokenType::Line {
            sp_next_token(v).st.line - 1
        } else {
            sp_next_token(v).st.line
        }),
{
    if v.next.tok_type != TokenType::EOF {
        lemma_lex_lines(v.source, v.st.pos, v.st.line, sp_next_token(v).st.pos, v.st, v.next);
    }
}

/// The byte at `z` ends the source: it is a NUL, or `z` is past the end.
pub open spec fn ends_at(s: Seq<u8>, z: int) -> bool {
    char_at(s, z) == 0
}

/// `p` is at or before `z`, the first end of the source from `p` on.
pub open spec fn before_end(s: Seq<u8>, z: int, p: int) -> bool {
    &&& p <= z
    &&& ends_at(s, z)
    &&& forall|i: int| p <= i < z ==> #[trigger] char_at(s, i) != 0
}

/// An error was reported between `a` and `b`: the error mark is set, and,
/// where errors are listed, one more is listed.
pub open spec fn raises_error(a: ScanState, b: ScanState) -> bool {
    &&& b.has_error
    &&& a.print ==> a.errors.len() < b.errors.len()
}

/// A line comment stops at the end.
pub proof fn lemma_line_comment_end_stops(s: Seq<u8>, z: int, pos: int)
    requires
        before_end(s, z, pos),
    ensures
        line_comment_end(s, pos) <= z,
    decreases s.len() - pos,
{
    if !(char_at(s, pos) == '\n' as u8 || char_at(s, pos) == 0) {
        lemma_line_comment_end_stops(s, z, pos + 1);
    }
}

/// A run of blanks stops at the end.
pub proof fn lemma_blank_end_stops(s: Seq<u8>, z: int, pos: int)
    requires
        before_end(s, z, pos),
    ensures
        blank_end(s, pos) <= z,
    decreases s.len() - pos,
{
    let c = char_at(s, pos);
    if c == ' ' as u8 || c == '\r' as u8 || c == '\t' as u8 {
        lemma_blank_end_stops(s, z, pos + 1);
    }
}

/// A name stops at the end.
pub proof fn lemma_name_end_stops(s: Seq<u8>, z: int, pos: int)
    requires
        before_end(s, z, pos),
    ensures
        name_end(s, pos) <= z,
    decreases s.len() - pos,
{
    if is_name(char_at(s, pos)) || is_digit(char_at(s, pos)) {
        lemma_name_end_stops(s, z, pos + 1);
    }
}

/// A run of digits stops at the end.
pub proof fn lemma_digits_end_stops(s: Seq<u8>, z: int, pos: int)
    requires
        before_end(s, z, pos),
    ensures
        digits_end(s, pos) <= z,
    decreases s.len() - pos,
{
    if is_digit(char_at(s, pos)) {
        lemma_digits_end_stops(s, z, pos + 1);
    }
}

/// A decimal number stops at the end.
pub proof fn lemma_read_number_stops(s: Seq<u8>, z: int, st: ScanState)
    requires
        before_end(s, z, st.pos),
    ensures
        sp_read_number(s, st).pos <= z,
{
    let p1 = digits_end(s, st.pos);
    lemma_digits_end_stops(s, z, st.pos);
    lemma_digits_end_flat(s, st.pos);
    assert(ends_at(s, z));
    let p2 = if char_at(s, p1) == '.' as u8 && is_digit(peek_next_at(s, p1)) {
        lemma_digits_end_stops(s, z, p1 + 1);
        lemma_digits_end_flat(s, p1 + 1);
        digits_end(s, p1 + 1)
    } else {
        p1
    };
    if char_at(s, p2) == 'e' as u8 || char_at(s, p2) == 'E' as u8 {
        let p3 = p2 + 1;
        let p4 = if char_at(s, p3) == '+' as u8 || char_at(s, p3) == '-' as u8 {
            p3 + 1
        } else {
            p3
        };
        lemma_digits_end_stops(s, z, p4);
    }
}

/// The digits of an escape sequence stop at the end.
pub proof fn lemma_hex_escape_stops(
    s: Seq<u8>,
    z: int,
    st: ScanState,
    digits: int,
    kind: EscapeKind,
    i: int,
    value: int,
)
    requires
        before_end(s, z, st.pos),
    ensures
        sp_hex_escape(s, st, digits, kind, i, value).0.pos <= z,
    decreases digits - i,
{
    if i < digits && !(char_at(s, st.pos) == '"' as u8 || char_at(s, st.pos) == 0) {
        let (d, st1) = sp_read_hex_digit(s, st);
        if d != -1 {
            lemma_hex_escape_stops(s, z, st1, digits, kind, i + 1, value * 16 + d);
        }
    }
}

/// The digits of a number stop at the end.
pub proof fn lemma_hex_run_stops(s: Seq<u8>, z: int, st: ScanState)
    requires
        before_end(s, z, st.pos),
    ensures
        sp_hex_run(s, st).pos <= z,
    decreases s.len() - st.pos,
{
    let (d, st1) = sp_read_hex_digit(s, st);
    if d != -1 {
        lemma_hex_run_stops(s, z, st1);
    }
}

/// A block comment stops at the end.
pub proof fn lemma_block_comment_stops(s: Seq<u8>, z: int, st: ScanState, nesting: int)
    requires
        before_end(s, z, st.pos),
    ensures
        sp_block_comment(s, st, nesting).pos <= z,
    decreases s.len() - st.pos,
{
    if nesting > 0 && char_at(s, st.pos) != 0 {
        if char_at(s, st.pos) == '/' as u8 && peek_next_at(s, st.pos) == '*' as u8 {
            lemma_block_comment_stops(s, z, sp_next_char(s, sp_next_char(s, st)), nesting + 1);
        } else if char_at(s, st.pos) == '*' as u8 && peek_next_at(s, st.pos) == '/' as u8 {
            lemma_block_comment_stops(s, z, sp_next_char(s, sp_next_char(s, st)), nesting - 1);
        } else {
            lemma_block_comment_stops(s, z, sp_next_char(s, st), nesting);
        }
    }
}

/// The body of a string stops at the end, or reports an error.
pub proof fn lemma_string_loop_stops(s: Seq<u8>, z: int, r: StrScan)
    requires
        before_end(s, z, r.st.pos),
    ensures
        sp_string_loop(s, r).st.pos <= z || raises_error(r.st, sp_string_loop(s, r).st),
    decreases s.len() + 2 - r.st.pos,
{
    let c = char_at(s, r.st.pos);
    let st1 = sp_next_char(s, r.st);
    if c == '"' as u8 || c == 0 {
    } else if c == '\r' as u8 {
        lemma_string_loop_stops(s, z, StrScan { st: st1, ..r });
        lemma_string_loop_keeps(s, StrScan { st: st1, ..r });
    } else if c == '%' as u8 && st1.parens.len() < MAX_INTERPOLATION_NESTING {
    } else {
        let st1b = if c == '%' as u8 {
            sp_lex_error(st1, LexErrorKind::InterpolationTooDeep)
        } else {
            st1
        };
        if c == '\\' as u8 {
            let e = char_at(s, st1b.pos);
            let st2 = sp_next_char(s, st1b);
            assert(ends_at(s, z));
            if st1b.pos == z {
                lemma_string_loop_keeps(
                    s,
                    StrScan { st: sp_lex_error(st2, LexErrorKind::InvalidEscapeCharacter(e)), ..r },
                );
            } else if simple_escape(e) is Some {
                lemma_string_loop_stops(s, z, StrScan { st: st2, buf: r.buf.push(simple_escape(e)->0), ..r });
                lemma_string_loop_keeps(s, StrScan { st: st2, buf: r.buf.push(simple_escape(e)->0), ..r });
            } else if e == 'u' as u8 || e == 'U' as u8 {
                let digits: int = if e == 'u' as u8 {
                    4
                } else {
                    8
                };
                let (st3, bytes) = sp_unicode_escape(s, st2, digits);
                lemma_hex_escape_pos(s, st2, digits, EscapeKind::Unicode, 0, 0);
                lemma_hex_escape_stops(s, z, st2, digits, EscapeKind::Unicode, 0, 0);
                lemma_hex_escape_keeps(s, st2, digits, EscapeKind::Unicode, 0, 0);
                lemma_string_loop_stops(s, z, StrScan { st: st3, buf: r.buf + bytes, ..r });
                lemma_string_loop_keeps(s, StrScan { st: st3, buf: r.buf + bytes, ..r });
            } else if e == 'x' as u8 {
                let (st3, v) = sp_hex_escape(s, st2, 2, EscapeKind::Byte, 0, 0);
                lemma_hex_escape_pos(s, st2, 2, EscapeKind::Byte, 0, 0);
                lemma_hex_escape_stops(s, z, st2, 2, EscapeKind::Byte, 0, 0);
                lemma_hex_escape_keeps(s, st2, 2, EscapeKind::Byte, 0, 0);
                lemma_string_loop_stops(s, z, StrScan { st: st3, buf: r.buf.push(v as u8), ..r });
                lemma_string_loop_keeps(s, StrScan { st: st3, buf: r.buf.push(v as u8), ..r });
            } else {
                lemma_string_loop_stops(
                    s,
                    z,
                    StrScan { st: sp_lex_error(st2, LexErrorKind::InvalidEscapeCharacter(e)), ..r },
                );
                lemma_string_loop_keeps(
                    s,
                    StrScan { st: sp_lex_error(st2, LexErrorKind::InvalidEscapeCharacter(e)), ..r },
                );
            }
        } else {
            lemma_string_loop_stops(s, z, StrScan { st: st1b, buf: r.buf.push(c), ..r });
            lemma_string_loop_keeps(s, StrScan { st: st1b, buf: r.buf.push(c), ..r });
        }
    }
}

/// The body of a raw string ends at its closing quotes, which lie before
/// the end, or reports an error.
pub proof fn lemma_raw_loop_stops(s: Seq<u8>, z: int, r: RawScan)
    requires
        before_end(s, z, r.st.pos),
    ensures
        sp_raw_loop(s, r).st.pos + 2 <= z || raises_error(r.st, sp_raw_loop(s, r).st),
    decreases s.len() - r.st.pos,
{
    let c = char_at(s, r.st.pos);
    let st1 = sp_next_char(s, r.st);
    let c1 = char_at(s, st1.pos);
    let c2 = peek_next_at(s, st1.pos);
    if c == '\r' as u8 {
        lemma_raw_loop_stops(s, z, RawScan { st: st1, ..r });
    } else if c == '"' as u8 && c1 == '"' as u8 && c2 == '"' as u8 {
        assert(ends_at(s, z));
        assert(char_at(s, st1.pos + 1) == '"' as u8);
    } else if c == 0 || c1 == 0 || c2 == 0 {
    } else {
        let count = r.buf.len() as int;
        let first_newline = if c == '\n' as u8 && r.first_newline == -1 {
            count
        } else {
            r.first_newline
        };
        let ws = c == ' ' as u8 || c == '\t' as u8;
        let skip_end = if c == '\n' as u8 || ws {
            if c == '\n' as u8 {
                count
            } else {
                r.skip_end
            }
        } else {
            -1
        };
        let skip_start1 = if r.skip_start != 1 && ws && first_newline == -1 {
            count + 1
        } else {
            r.skip_start
        };
        let skip_start = if first_newline == -1 && !ws && c != '\n' as u8 {
            -1
        } else {
            skip_start1
        };
        let last_newline = if c == '\n' as u8 {
            count
        } else {
            r.last_newline
        };
        assert(ends_at(s, z));
        assert(c2 == char_at(s, st1.pos + 1));
        lemma_raw_loop_stops(
            s,
            z,
            RawScan { st: st1, buf: r.buf.push(c), skip_start, first_newline, skip_end, last_newline },
        );
    }
}

/// Lexing one token stops at the end, or reports an error.
pub proof fn lemma_lex_stops(s: Seq<u8>, z: int, st: ScanState, next: TokenView)
    requires
        before_end(s, z, st.pos),
        0 <= st.pos,
    ensures
        sp_lex(s, st, next).st.pos <= z || raises_error(st, sp_lex(s, st, next).st),
    decreases s.len() + 2 - st.pos,
{
    reveal(sp_lex_paren);
    reveal(sp_lex_punct);
    reveal(sp_lex_literal);
    if char_at(s, st.pos) != 0 {
        let ts = st.pos;
        let c = char_at(s, ts);
        let st1 = sp_next_char(s, st);
        let n = st1.parens.len();
        if c == '(' as u8 || c == ')' as u8 {
            if c == ')' as u8 && n > 0 && st1.parens[n - 1] - 1 == 0 {
                lemma_string_loop_stops(
                    s,
                    z,
                    StrScan {
                        st: ScanState { parens: st1.parens.drop_last(), ..st1 },
                        buf: Seq::empty(),
                        tok: TokenType::String,
                    },
                );
            }
        } else if single_char_token(c) is Some {
        } else if is_punct_start(c) {
            lemma_lex_one_skip(s, st, next);
            lemma_line_comment_end_stops(s, z, st1.pos);
            lemma_blank_end_stops(s, z, st1.pos);
            let (m1, st2) = sp_match_char(s, st1, '/' as u8);
            if m1 {
                lemma_line_comment_end_stops(s, z, st2.pos);
            }
            let (m2, st3) = sp_match_char(s, st2, '*' as u8);
            if c == '/' as u8 && !m1 && m2 {
                lemma_block_comment_stops(s, z, st3, 1);
                lemma_block_comment_keeps(s, st3, 1);
            }
            match sp_lex_one(s, st, next) {
                LexStep::Skip(st4) => {
                    lemma_lex_stops(s, z, st4, next);
                    lemma_lex_keeps(s, st4, next);
                },
                LexStep::Done(_) => {},
            }
        } else {
            if c == '"' as u8 {
                if char_at(s, st1.pos) == '"' as u8 && peek_next_at(s, st1.pos) == '"' as u8 {
                    lemma_raw_loop_stops(s, z, raw_start(s, st1));
                } else {
                    lemma_string_loop_stops(
                        s,
                        z,
                        StrScan { st: st1, buf: Seq::empty(), tok: TokenType::String },
                    );
                }
            } else if c == '0' as u8 && char_at(s, st1.pos) == 'x' as u8 {
                lemma_hex_run_stops(s, z, sp_next_char(s, st1));
            } else if is_name(c) || c == '_' as u8 {
                lemma_name_end_stops(s, z, st1.pos);
            } else if is_digit(c) {
                lemma_read_number_stops(s, z, st1);
            }
        }
    }
}

/// Moving to the next token never leaves the lexer past the first NUL (or
/// the end) from where it stands unless it reports an error in that move:
/// only an escape or interpolation whose second byte is that NUL, and a raw
/// string that runs into it, step past it, and those are errors.
pub proof fn law_lexing_stops_at_the_end(v: ParserView, z: int)
    requires
        0 <= v.st.pos,
        before_end(v.source, z, v.st.pos),
    ensures
        sp_next_token(v).st.pos <= z || raises_error(v.st, sp_next_token(v).st),
{
    if v.next.tok_type != TokenType::EOF {
        lemma_lex_stops(v.source, z, v.st, v.next);
    }
}

// ---------------------------------------------------------------------------
// The lexer.
// ---------------------------------------------------------------------------

/// The Wren lexer: it reads the source one token ahead of the token the
/// compiler is looking at.
pub struct Parser<'a> {
    pub vm: &'a VM,
    /// The name of the module being compiled, if it has one.
    pub module: Option<&'a str>,
    pub source: &'a [u8],
    pub token_start: usize,
    pub current_char: usize,
    pub current_line: i32,
    pub next: Token,
    pub current: Token,
    pub previous: Token,
    /// For each open string interpolation, innermost last, the number of
    /// its parentheses that are still open.
    pub parens: Vec<i32>,
    pub print_errors: bool,
    pub has_error: bool,
    /// The errors reported, in order; they are only listed when
    /// `print_errors` is set and the host registered an error callback.
    pub diagnostics: Vec<Diagnostic>,
}

/// The parser as a mathematical value.
pub struct ParserView {
    pub source: Seq<u8>,
    pub module: Option<Seq<char>>,
    pub print_errors: bool,
    pub token_start: int,
    pub st: ScanState,
    pub next: TokenView,
    pub current: TokenView,
    pub previous: TokenView,
}

impl<'a> Parser<'a> {
    pub open spec fn scan(&self) -> ScanState {
        ScanState {
            pos: self.current_char as int,
            line: self.current_line as int,
            parens: self.parens@,
            errors: self.diagnostics@.map_values(|d: Diagnostic| d@),
            has_error: self.has_error,
            print: self.print_errors && self.vm.configuration().error_fn is Some,
        }
    }

    pub open spec fn view(&self) -> ParserView {
        ParserView {
            source: self.source@,
            module: match self.module {
                Some(m) => Some(m@),
                None => None,
            },
            print_errors: self.print_errors,
            token_start: self.token_start as int,
            st: self.scan(),
            next: self.next.view(),
            current: self.current.view(),
            previous: self.previous.view(),
        }
    }

    /// The parser's invariant between tokens: the read position is at most
    /// one past the end, the line count is bounded by the bytes read, and
    /// every open interpolation has between one and as many open
    /// parentheses as bytes were read.
    pub open spec fn wf(&self) -> bool {
        &&& self.source@.len() <= MAX_SOURCE_LEN
        &&& self.token_start <= self.current_char <= self.source@.len() + 2
        &&& 1 <= self.current_line <= 2 * self.current_char + 1
        &&& self.parens@.len() <= MAX_INTERPOLATION_NESTING
        &&& forall|i: int|
            0 <= i < self.parens@.len() ==> 1 <= #[trigger] self.parens@[i] <= self.current_char
    }

    /// A parser at the start of `source`.
    pub fn new(vm: &'a VM, module: Option<&'a str>, source: &'a [u8], print_errors: bool) -> (p: Self)
        requires
            source@.len() <= MAX_SOURCE_LEN,
        ensures
            p.wf(),
            p.vm == vm,
            p.module == module,
            p.print_errors == print_errors,
            p.view() == (ParserView {
                source: source@,
                module: match module {
                    Some(m) => Some(m@),
                    None => None,
                },
                print_errors,
                token_start: 0,
                st: ScanState {
                    pos: 0,
                    line: 1,
                    parens: Seq::empty(),
                    errors: Seq::empty(),
                    has_error: false,
                    print: print_errors && vm.configuration().error_fn is Some,
                },
                next: null_token_view(),
                current: null_token_view(),
                previous: null_token_view(),
            }),
    {
        let p = Parser {
            vm,
            module,
            source,
            token_start: 0,
            current_char: 0,
            current_line: 1,
            next: Token::null(),
            current: Token::null(),
            previous: Token::null(),
            parens: Vec::new(),
            print_errors,
            has_error: false,
            diagnostics: Vec::new(),
        };
        assert(p.diagnostics@.map_values(|d: Diagnostic| d@) =~= Seq::empty());
        p
    }

    fn char_at(&self, i: usize) -> (c: u8)
        ensures
            c == char_at(self.source@, i as int),
    {
        if i < self.source.len() {
            self.source[i]
        } else {
            0
        }
    }

    /// The next byte, not consumed.
    pub fn peek_char(&self) -> (c: u8)
        ensures
            c == char_at(self.source@, self.current_char as int),
    {
        self.char_at(self.current_char)
    }

    /// The byte after the next one, not consumed.
    pub fn peek_next_char(&self) -> (c: u8)
        requires
            self.current_char < usize::MAX,
        ensures
            c == peek_next_at(self.source@, self.current_char as int),
    {
        if self.peek_char() == 0 {
            ('0' as u8)
        } else {
            self.char_at(self.current_char + 1)
        }
    }

    /// Consumes the next byte and returns it.
    pub fn next_char(&mut self) -> (c: u8)
        requires
            old(self).current_char < usize::MAX,
            old(self).current_line < i32::MAX,
        ensures
            c == char_at(old(self).source@, old(self).current_char as int),
            final(self).view() == (ParserView {
                st: sp_next_char(old(self).source@, old(self).scan()),
                ..old(self).view()
            }),
            final(self).vm == old(self).vm,
    {
        let c = self.peek_char();
        self.current_char = self.current_char + 1;
        if c == ('\n' as u8) {
            self.current_line = self.current_line + 1;
        }
        c
    }

    /// Consumes the next byte if it is `c`.
    pub fn match_char(&mut self, c: u8) -> (matched: bool)
        requires
            old(self).current_char < usize::MAX,
            old(self).current_line < i32::MAX,
        ensures
            (matched, final(self).scan()) == sp_match_char(
                old(self).source@,
                old(self).scan(),
                c,
            ),
            final(self).view() == (ParserView { st: final(self).scan(), ..old(self).view() }),
            final(self).vm == old(self).vm,
    {
        if self.peek_char() != c {
            false
        } else {
            self.next_char();
            true
        }
    }

    /// Makes the next token of type `tok_type` from `token_start` up to the
    /// read position.
    pub fn make_token(&mut self, tok_type: TokenType)
        requires
            old(self).token_start <= old(self).current_char,
            old(self).current_line > i32::MIN,
        ensures
            final(self).view() == (ParserView {
                next: sp_make_token(
                    old(self).next.view(),
                    tok_type,
                    old(self).token_start as int,
                    old(self).scan(),
                ),
                ..old(self).view()
            }),
            final(self).vm == old(self).vm,
    {
        self.next.tok_type = tok_type;
        self.next.start_idx = self.token_start;
        self.next.length = self.current_char - self.token_start;
        self.next.line = self.current_line;
        if matches!(tok_type, TokenType::Line) {
            self.next.line = self.next.line - 1;
        }
    }

    /// Makes a token of type `two` if the next byte is `c`, which it then
    /// consumes, and of type `one` otherwise.
    pub fn two_char_token(&mut self, c: u8, two: TokenType, one: TokenType)
        requires
            old(self).token_start <= old(self).current_char < usize::MAX,
            i32::MIN < old(self).current_line < i32::MAX,
        ensures
            ({
                let (m, st) = sp_match_char(old(self).source@, old(self).scan(), c);
                final(self).view() == (ParserView {
                    st,
                    next: sp_make_token(
                        old(self).next.view(),
                        if m {
                            two
                        } else {
                            one
                        },
                        old(self).token_start as int,
                        st,
                    ),
                    ..old(self).view()
                })
            }),
            final(self).vm == old(self).vm,
    {
        let m = self.match_char(c);
        self.make_token(
            if m {
                two
            } else {
                one
            },
        )
    }

    /// Reports an error at `line` with a label and a message: the parser is
    /// marked as having an error, and, when errors are printed and the host
    /// registered an error callback, the error is listed once;
    /// `error_reports` gives what the callback receives for it.
    pub fn print_error(&mut self, line: i32, label: &str, message: &str)
        ensures
            final(self).view() == (ParserView {
                st: sp_print_error(old(self).scan(), line as int, label@, message@),
                ..old(self).view()
            }),
            final(self).vm == old(self).vm,
    {
        self.has_error = true;
        if !self.print_errors || self.vm.error_fn().is_none() {
            return;
        }
        let d = Diagnostic { line, label: String::from_str(label), message: String::from_str(message) };
        let ghost before = self.diagnostics@;
        self.diagnostics.push(d);
        proof {
            assert(self.diagnostics@.map_values(|d: Diagnostic| d@) =~= before.map_values(
                |d: Diagnostic| d@,
            ).push((line, label@, message@)));
        }
    }

    /// Reports a lexing error at the current line, labelled "Error".
    pub fn lex_error(&mut self, kind: LexErrorKind)
        ensures
            final(self).view() == (ParserView {
                st: sp_lex_error(old(self).scan(), kind),
                ..old(self).view()
            }),
            final(self).vm == old(self).vm,
    {
        let message = kind.message();
        self.print_error(self.current_line, "Error", message.as_str());
    }

    /// Skips the rest of a line comment, up to its newline or the end.
    pub fn skip_line_comment(&mut self)
        requires
            old(self).current_char <= old(self).source@.len() + 1,
            old(self).source@.len() <= MAX_SOURCE_LEN,
        ensures
            final(self).view() == (ParserView {
                st: ScanState {
                    pos: line_comment_end(old(self).source@, old(self).current_char as int),
                    ..old(self).scan()
                },
                ..old(self).view()
            }),
            final(self).current_char <= old(self).source@.len() + 1,
            final(self).current_char >= old(self).current_char,
            final(self).vm == old(self).vm,
            final(self).parens@ == old(self).parens@,
    {
        let ghost start = self.current_char as int;
        while self.peek_char() != ('\n' as u8) && self.peek_char() != 0
            invariant
                self.source == old(self).source,
                self.vm == old(self).vm,
                self.parens@ == old(self).parens@,
                start <= self.current_char <= self.source@.len() + 1,
                self.source@.len() <= MAX_SOURCE_LEN,
                line_comment_end(self.source@, self.current_char as int) == line_comment_end(
                    self.source@,
                    start,
                ),
                self.view() == (ParserView {
                    st: ScanState { pos: self.current_char as int, ..old(self).scan() },
                    ..old(self).view()
                }),
            decreases self.source@.len() - self.current_char,
        {
            self.current_char = self.current_char + 1;
        }
    }
    /// Skips the rest of a block comment; block comments nest.
    pub fn skip_block_comment(&mut self)
        requires
            old(self).current_char <= old(self).source@.len(),
            old(self).source@.len() <= MAX_SOURCE_LEN,
            1 <= old(self).current_line <= 2 * old(self).current_char + 1,
        ensures
            final(self).view() == (ParserView {
                st: sp_block_comment(old(self).source@, old(self).scan(), 1),
                ..old(self).view()
            }),
            old(self).current_char <= final(self).current_char <= old(self).source@.len(),
            old(self).current_line <= final(self).current_line,
            final(self).current_line - old(self).current_line <= final(self).current_char
                - old(self).current_char,
            final(self).vm == old(self).vm,
            final(self).parens@ == old(self).parens@,
    {
        let ghost s = self.source@;
        let ghost st0 = self.scan();
        let mut nesting: usize = 1;
        while nesting > 0
            invariant
                self.source@ == s,
                s == old(self).source@,
                st0 == old(self).scan(),
                self.vm == old(self).vm,
                self.parens@ == old(self).parens@,
                s.len() <= MAX_SOURCE_LEN,
                old(self).current_char <= self.current_char <= s.len(),
                old(self).current_line <= self.current_line,
                self.current_line - old(self).current_line <= self.current_char
                    - old(self).current_char,
                1 <= old(self).current_line <= 2 * old(self).current_char + 1,
                nesting <= self.current_char + 1,
                sp_block_comment(s, self.scan(), nesting as int) == sp_block_comment(s, st0, 1),
                self.view() == (ParserView { st: self.scan(), ..old(self).view() }),
            decreases s.len() - self.current_char,
        {
            if self.peek_char() == 0 {
                assert(sp_block_comment(s, self.scan(), nesting as int) == sp_lex_error(
                    self.scan(),
                    LexErrorKind::UnterminatedBlockComment,
                ));
                self.lex_error(LexErrorKind::UnterminatedBlockComment);
                return;
            }
            if self.peek_char() == ('/' as u8) && self.peek_next_char() == ('*' as u8) {
                self.next_char();
                self.next_char();
                nesting = nesting + 1;
                continue;
            }
            if self.peek_char() == ('*' as u8) && self.peek_next_char() == ('/' as u8) {
                self.next_char();
                self.next_char();
                nesting = nesting - 1;
                continue;
            }
            self.next_char();
        }
    }
    /// Reads a raw string (`"""..."""`) whose first quote is read, and makes
    /// its string token.
    pub fn read_raw_string(&mut self)
        requires
            old(self).source@.len() <= MAX_SOURCE_LEN,
            old(self).token_start <= old(self).current_char <= old(self).source@.len(),
            1 <= old(self).current_line <= 2 * old(self).current_char + 1,
            char_at(old(self).source@, old(self).current_char as int) == '"' as u8,
            peek_next_at(old(self).source@, old(self).current_char as int) == '"' as u8,
        ensures
            ({
                let (st, v) = sp_read_raw_string(old(self).source@, old(self).scan());
                final(self).view() == (ParserView {
                    st,
                    next: with_value(
                        sp_make_token(
                            old(self).next.view(),
                            TokenType::String,
                            old(self).token_start as int,
                            st,
                        ),
                        v,
                    ),
                    ..old(self).view()
                })
            }),
            old(self).current_char < final(self).current_char <= old(self).source@.len() + 2,
            final(self).current_line <= 2 * final(self).current_char + 1,
            old(self).current_line <= final(self).current_line,
            final(self).vm == old(self).vm,
            final(self).parens@ == old(self).parens@,
    {
        let ghost s = self.source@;
        let ghost entry = self.current_char as int;
        let mut string = Buffer::<u8>::new();
        self.next_char();
        self.next_char();
        let ghost r0 = raw_start(s, old(self).scan());
        let mut skip_start: i64 = 0;
        let mut first_newline: i64 = -1;
        let mut skip_end: i64 = -1;
        let mut last_newline: i64 = -1;
        assert(string.data@ =~= Seq::<u8>::empty());
        assert(r0 == (RawScan {
            st: self.scan(),
            buf: string.data@,
            skip_start: skip_start as int,
            first_newline: first_newline as int,
            skip_end: skip_end as int,
            last_newline: last_newline as int,
        }));
        loop
            invariant_except_break
                self.source@ == s,
                s == old(self).source@,
                self.vm == old(self).vm,
                self.parens@ == old(self).parens@,
                s.len() <= MAX_SOURCE_LEN,
                entry == old(self).current_char,
                r0 == raw_start(s, old(self).scan()),
                entry + 2 <= self.current_char <= s.len(),
                old(self).current_line <= self.current_line,
                self.current_line + 3 <= 2 * self.current_char,
                string.wf(),
                string.count <= self.current_char - entry,
                -1 <= skip_start <= string.count + 1,
                -1 <= first_newline <= string.count,
                -1 <= skip_end <= string.count,
                -1 <= last_newline <= string.count,
                sp_raw_loop(s, r0) == sp_raw_loop(
                    s,
                    RawScan {
                        st: self.scan(),
                        buf: string.data@,
                        skip_start: skip_start as int,
                        first_newline: first_newline as int,
                        skip_end: skip_end as int,
                        last_newline: last_newline as int,
                    },
                ),
                self.view() == (ParserView { st: self.scan(), ..old(self).view() }),
            ensures
                self.source@ == s,
                self.vm == old(self).vm,
                self.parens@ == old(self).parens@,
                entry + 2 <= self.current_char <= s.len(),
                old(self).current_line <= self.current_line,
                self.current_line + 2 <= 2 * self.current_char,
                string.wf(),
                -1 <= skip_start <= string.count + 1,
                -1 <= first_newline <= string.count,
                -1 <= skip_end <= string.count,
                -1 <= last_newline <= string.count,
                sp_raw_loop(s, r0) == (RawScan {
                    st: self.scan(),
                    buf: string.data@,
                    skip_start: skip_start as int,
                    first_newline: first_newline as int,
                    skip_end: skip_end as int,
                    last_newline: last_newline as int,
                }),
                self.view() == (ParserView { st: self.scan(), ..old(self).view() }),
            decreases s.len() - self.current_char,
        {
            let ghost r = RawScan {
                st: self.scan(),
                buf: string.data@,
                skip_start: skip_start as int,
                first_newline: first_newline as int,
                skip_end: skip_end as int,
                last_newline: last_newline as int,
            };
            let c = self.next_char();
            let c1 = self.peek_char();
            let c2 = self.peek_next_char();
            if c == ('\r' as u8) {
                continue;
            }
            if c == ('\n' as u8) {
                last_newline = string.count as i64;
                skip_end = last_newline;
                first_newline = if first_newline == -1 {
                    string.count as i64
                } else {
                    first_newline
                };
            }
            if c == ('"' as u8) && c1 == ('"' as u8) && c2 == ('"' as u8) {
                break;
            }
            let is_whitespace = c == (' ' as u8) || c == ('\t' as u8);
            skip_end = if c == ('\n' as u8) || is_whitespace {
                skip_end
            } else {
                -1
            };
            let skippable = skip_start != 1 && is_whitespace && first_newline == -1;
            skip_start = if skippable {
                string.count as i64 + 1
            } else {
                skip_start
            };
            if first_newline == -1 && !is_whitespace && c != ('\n' as u8) {
                skip_start = -1;
            }
            if c == 0 || c1 == 0 || c2 == 0 {
                self.lex_error(LexErrorKind::UnterminatedRawString);
                self.current_char = self.current_char - 1;
                break;
            }
            string.write(self.vm, c);
        }
        self.next_char();
        self.next_char();
        let mut offset: i64 = 0;
        let mut count: i64 = string.count as i64;
        if first_newline != -1 && skip_start == first_newline {
            offset = first_newline + 1;
        }
        if last_newline != -1 && skip_end == last_newline {
            count = last_newline;
        }
        count = count - if offset > count {
            count
        } else {
            offset
        };
        let value = if count == 0 {
            Vec::new()
        } else {
            copy_range(string.data.as_slice(), offset as usize, (offset + count) as usize)
        };
        proof {
            let rf = sp_raw_loop(s, r0);
            assert(value@ == raw_string_value(rf));
        }
        string.clear(self.vm);
        self.next.value = Some(value);
        self.make_token(TokenType::String);
    }
    /// Reads a hexadecimal digit and returns its value; a byte that is not
    /// one is put back and `-1` returned.
    pub fn read_hex_digit(&mut self) -> (d: i32)
        requires
            old(self).current_char < usize::MAX,
            old(self).current_line < i32::MAX,
        ensures
            (d as int, final(self).scan()) == sp_read_hex_digit(old(self).source@, old(self).scan()),
            final(self).view() == (ParserView { st: final(self).scan(), ..old(self).view() }),
            final(self).vm == old(self).vm,
    {
        let c = self.next_char();
        if c >= ('0' as u8) && c <= ('9' as u8) {
            return (c - ('0' as u8)) as i32;
        }
        if c >= ('a' as u8) && c <= ('f' as u8) {
            return (c - ('a' as u8) + 10) as i32;
        }
        if c >= ('A' as u8) && c <= ('F' as u8) {
            return (c - ('A' as u8) + 10) as i32;
        }
        self.current_char = self.current_char - 1;
        -1
    }

    /// Reads the `digits` hexadecimal digits of an escape sequence and
    /// returns their value.
    pub fn read_hex_escape(&mut self, digits: i32, kind: EscapeKind) -> (v: u32)
        requires
            0 <= digits <= 8,
            1 <= old(self).current_char <= old(self).source@.len(),
            old(self).source@.len() <= MAX_SOURCE_LEN,
            1 <= old(self).current_line <= 2 * old(self).current_char + 1,
        ensures
            (final(self).scan(), v as int) == sp_hex_escape(
                old(self).source@,
                old(self).scan(),
                digits as int,
                kind,
                0,
                0,
            ),
            final(self).view() == (ParserView { st: final(self).scan(), ..old(self).view() }),
            final(self).vm == old(self).vm,
            old(self).current_char - 1 <= final(self).current_char <= old(self).source@.len(),
            old(self).current_line <= final(self).current_line,
            2 * final(self).current_char - final(self).current_line >= 2 * old(self).current_char
                - old(self).current_line - 2,
            (v as int) < pow16(digits as int),
            final(self).parens@ == old(self).parens@,
    {
        let ghost s = self.source@;
        let ghost st0 = self.scan();
        let mut value: u32 = 0;
        let mut i: i32 = 0;
        while i < digits
            invariant_except_break
                self.source@ == s,
                s == old(self).source@,
                st0 == old(self).scan(),
                self.vm == old(self).vm,
                s.len() <= MAX_SOURCE_LEN,
                0 <= i <= digits <= 8,
                value < pow16(i as int),
                1 <= old(self).current_char,
                old(self).current_char + i == self.current_char <= s.len(),
                self.current_line == old(self).current_line,
                1 <= old(self).current_line <= 2 * old(self).current_char + 1,
                sp_hex_escape(s, self.scan(), digits as int, kind, i as int, value as int)
                    == sp_hex_escape(s, st0, digits as int, kind, 0, 0),
                self.parens@ == old(self).parens@,
                self.view() == (ParserView { st: self.scan(), ..old(self).view() }),
            ensures
                self.source@ == s,
                self.vm == old(self).vm,
                old(self).current_char - 1 <= self.current_char <= s.len(),
                old(self).current_line <= self.current_line,
                2 * self.current_char - self.current_line >= 2 * old(self).current_char
                    - old(self).current_line - 2,
                (self.scan(), value as int) == sp_hex_escape(s, st0, digits as int, kind, 0, 0),
                (value as int) < pow16(digits as int),
                self.parens@ == old(self).parens@,
                self.view() == (ParserView { st: self.scan(), ..old(self).view() }),
            decreases digits - i,
        {
            if self.peek_char() == ('"' as u8) || self.peek_char() == 0 {
                proof {
                    lemma_pow16_bound(i as int);
                    lemma_pow16_bound(digits as int);
                    lemma_pow16_mono(i as int, digits as int);
                }
                self.lex_error(LexErrorKind::IncompleteEscape(kind));
                self.current_char = self.current_char - 1;
                break;
            }
            let digit = self.read_hex_digit();
            if digit == -1 {
                proof {
                    lemma_pow16_mono(i as int, digits as int);
                }
                self.lex_error(LexErrorKind::InvalidEscape(kind));
                break;
            }
            proof {
                lemma_pow16_bound(i as int);
                lemma_pow16_bound(i as int + 1);
                lemma_pow16_bound(digits as int);
                assert(pow16(i as int + 1) == 16 * pow16(i as int));
            }
            value = value * 16 + digit as u32;
            i = i + 1;
        }
        value
    }

    /// Reads a `\u` or `\U` escape of `length` hexadecimal digits and
    /// appends the UTF-8 encoding of its code point to `string`.
    pub fn read_unicode_escape(&mut self, string: &mut Buffer<u8>, length: i32)
        requires
            length == 4 || length == 8,
            1 <= old(self).current_char <= old(self).source@.len(),
            old(self).source@.len() <= MAX_SOURCE_LEN,
            1 <= old(self).current_line <= 2 * old(self).current_char + 1,
            old(string).wf(),
            old(string).count + 4 <= MAX_BUFFER_COUNT,
        ensures
            ({
                let (st, bytes) = sp_unicode_escape(
                    old(self).source@,
                    old(self).scan(),
                    length as int,
                );
                &&& final(self).view() == (ParserView { st, ..old(self).view() })
                &&& final(string).data@ == old(string).data@ + bytes
            }),
            final(string).wf(),
            final(string).count <= old(string).count + 4,
            final(self).vm == old(self).vm,
            final(self).parens@ == old(self).parens@,
            old(self).current_char - 1 <= final(self).current_char <= old(self).source@.len(),
            old(self).current_line <= final(self).current_line,
            2 * final(self).current_char - final(self).current_line >= 2 * old(self).current_char
                - old(self).current_line - 2,
    {
        let value = self.read_hex_escape(length, EscapeKind::Unicode);
        write_utf8(self.vm, string, value);
    }

    /// Reads a string whose opening quote is read, up to its closing quote
    /// or the start of an interpolation, and makes its token.
    pub fn read_string(&mut self)
        requires
            old(self).source@.len() <= MAX_SOURCE_LEN,
            1 <= old(self).current_char <= old(self).source@.len(),
            old(self).token_start <= old(self).current_char,
            1 <= old(self).current_line <= 2 * old(self).current_char + 1,
            old(self).parens@.len() <= MAX_INTERPOLATION_NESTING,
            forall|i: int|
                0 <= i < old(self).parens@.len() ==> 1 <= #[trigger] old(self).parens@[i]
                    <= old(self).current_char,
        ensures
            ({
                let r = sp_read_string(old(self).source@, old(self).scan());
                final(self).view() == (ParserView {
                    st: r.st,
                    next: with_value(
                        sp_make_token(
                            old(self).next.view(),
                            r.tok,
                            old(self).token_start as int,
                            r.st,
                        ),
                        r.buf,
                    ),
                    ..old(self).view()
                })
            }),
            final(self).vm == old(self).vm,
            old(self).current_char <= final(self).current_char <= old(self).source@.len() + 1,
            old(self).current_line <= final(self).current_line <= 2 * final(self).current_char
                + 1,
            final(self).parens@.len() <= MAX_INTERPOLATION_NESTING,
            forall|i: int|
                0 <= i < final(self).parens@.len() ==> 1 <= #[trigger] final(self).parens@[i]
                    <= final(self).current_char,
    {
        let ghost s = self.source@;
        let ghost entry = self.current_char as int;
        let ghost r0 = StrScan { st: old(self).scan(), buf: Seq::empty(), tok: TokenType::String };
        let mut tok_type = TokenType::String;
        let mut string = Buffer::<u8>::new();
        assert(string.data@ =~= Seq::<u8>::empty());
        loop
            invariant_except_break
                self.source@ == s,
                s == old(self).source@,
                self.vm == old(self).vm,
                s.len() <= MAX_SOURCE_LEN,
                entry == old(self).current_char,
                r0 == (StrScan { st: old(self).scan(), buf: Seq::empty(), tok: TokenType::String }),
                entry <= self.current_char <= s.len() + 1,
                1 <= entry,
                old(self).current_line <= self.current_line,
                1 <= old(self).current_line <= 2 * entry + 1,
                old(self).parens@.len() <= MAX_INTERPOLATION_NESTING,
                forall|i: int|
                    0 <= i < old(self).parens@.len() ==> 1 <= #[trigger] old(self).parens@[i]
                        <= entry,
                2 * self.current_char - self.current_line >= 2 * entry - old(self).current_line,
                tok_type == TokenType::String,
                self.parens@ == old(self).parens@,
                string.wf(),
                string.count <= 4 * (self.current_char - entry),
                sp_string_loop(s, r0) == sp_string_loop(
                    s,
                    StrScan { st: self.scan(), buf: string.data@, tok: tok_type },
                ),
                self.view() == (ParserView { st: self.scan(), ..old(self).view() }),
            ensures
                self.source@ == s,
                self.vm == old(self).vm,
                entry <= self.current_char <= s.len() + 1,
                old(self).current_line <= self.current_line,
                2 * self.current_char - self.current_line >= 2 * entry - old(self).current_line,
                self.parens@.len() <= MAX_INTERPOLATION_NESTING,
                forall|i: int|
                    0 <= i < self.parens@.len() ==> 1 <= #[trigger] self.parens@[i]
                        <= self.current_char,
                string.wf(),
                sp_string_loop(s, r0) == (StrScan {
                    st: self.scan(),
                    buf: string.data@,
                    tok: tok_type,
                }),
                self.view() == (ParserView { st: self.scan(), ..old(self).view() }),
            decreases s.len() + 2 - self.current_char,
        {
            let ghost pre = self.current_char as int;
            let c = self.next_char();
            if c == ('"' as u8) {
                break;
            }
            if c == ('\r' as u8) {
                continue;
            }
            if c == 0 {
                self.lex_error(LexErrorKind::UnterminatedString);
                self.current_char = self.current_char - 1;
                break;
            }
            if c == ('%' as u8) {
                if self.parens.len() < MAX_INTERPOLATION_NESTING {
                    if self.next_char() != ('(' as u8) {
                        self.lex_error(LexErrorKind::ExpectParenAfterPercent);
                    }
                    self.parens.push(1);
                    tok_type = TokenType::Interpolation;
                    break;
                }
                self.lex_error(LexErrorKind::InterpolationTooDeep);
            }
            if c == ('\\' as u8) {
                let e = self.next_char();
                match escape_byte(e) {
                    Some(b) => {
                        string.write(self.vm, b);
                    },
                    None => {
                        if e == ('u' as u8) {
                            self.read_unicode_escape(&mut string, 4);
                        } else if e == ('U' as u8) {
                            self.read_unicode_escape(&mut string, 8);
                        } else if e == ('x' as u8) {
                            let v = self.read_hex_escape(2, EscapeKind::Byte);
                            proof {
                                lemma_pow16_bound(2);
                            }
                            string.write(self.vm, v as u8);
                        } else {
                            self.lex_error(LexErrorKind::InvalidEscapeCharacter(e));
                        }
                    },
                }
            } else {
                string.write(self.vm, c);
            }
        }
        let value = copy_bytes(string.data.as_slice());
        string.clear(self.vm);
        self.next.value = Some(value);
        self.make_token(tok_type);
    }
    /// Reads the rest of a name whose first byte, `first`, is read, and
    /// makes its token: the keyword it spells, or `tok_type`.
    pub fn read_name(&mut self, tok_type: TokenType, first: u8)
        requires
            old(self).source@.len() <= MAX_SOURCE_LEN,
            old(self).token_start <= old(self).current_char <= old(self).source@.len(),
            old(self).current_char - old(self).token_start <= 1,
            i32::MIN < old(self).current_line < i32::MAX,
        ensures
            ({
                let (st, ty, v) = sp_read_name(
                    old(self).source@,
                    old(self).scan(),
                    old(self).token_start as int,
                    tok_type,
                    first,
                );
                final(self).view() == (ParserView {
                    st,
                    next: with_value(
                        sp_make_token(old(self).next.view(), ty, old(self).token_start as int, st),
                        v,
                    ),
                    ..old(self).view()
                })
            }),
            final(self).vm == old(self).vm,
            old(self).current_char <= final(self).current_char <= old(self).source@.len(),
            final(self).current_line == old(self).current_line,
            final(self).parens@ == old(self).parens@,
    {
        let ghost s = self.source@;
        let mut string = Buffer::<u8>::new();
        string.write(self.vm, first);
        while is_name_char(self.peek_char()) || is_digit_char(self.peek_char())
            invariant
                self.source@ == s,
                s == old(self).source@,
                self.vm == old(self).vm,
                self.parens@ == old(self).parens@,
                s.len() <= MAX_SOURCE_LEN,
                old(self).current_char <= self.current_char <= s.len(),
                old(self).current_char - old(self).token_start <= 1,
                i32::MIN < old(self).current_line < i32::MAX,
                self.current_line == old(self).current_line,
                name_end(s, self.current_char as int) == name_end(s, old(self).current_char as int),
                string.wf(),
                string.count == self.current_char - old(self).current_char + 1,
                string.data@ == seq![first] + s.subrange(
                    old(self).current_char as int,
                    self.current_char as int,
                ),
                self.view() == (ParserView {
                    st: ScanState { pos: self.current_char as int, ..old(self).scan() },
                    ..old(self).view()
                }),
            decreases s.len() - self.current_char,
        {
            let c = self.next_char();
            string.write(self.vm, c);
            assert(string.data@ =~= seq![first] + s.subrange(
                old(self).current_char as int,
                self.current_char as int,
            ));
        }
        let ty = match keyword_at(self.source, self.token_start, self.current_char) {
            Some(k) => k,
            None => tok_type,
        };
        let value = copy_bytes(string.data.as_slice());
        string.clear(self.vm);
        self.next.value = Some(value);
        self.make_token(ty);
    }

    /// Consumes a run of decimal digits.
    fn skip_digits(&mut self)
        requires
            old(self).current_char <= old(self).source@.len(),
            old(self).source@.len() <= MAX_SOURCE_LEN,
        ensures
            final(self).view() == (ParserView {
                st: ScanState {
                    pos: digits_end(old(self).source@, old(self).current_char as int),
                    ..old(self).scan()
                },
                ..old(self).view()
            }),
            old(self).current_char <= final(self).current_char <= old(self).source@.len(),
            final(self).vm == old(self).vm,
            final(self).parens@ == old(self).parens@,
    {
        let ghost s = self.source@;
        while is_digit_char(self.peek_char())
            invariant
                self.source@ == s,
                s == old(self).source@,
                self.vm == old(self).vm,
                self.parens@ == old(self).parens@,
                s.len() <= MAX_SOURCE_LEN,
                old(self).current_char <= self.current_char <= s.len(),
                digits_end(s, self.current_char as int) == digits_end(
                    s,
                    old(self).current_char as int,
                ),
                self.view() == (ParserView {
                    st: ScanState { pos: self.current_char as int, ..old(self).scan() },
                    ..old(self).view()
                }),
            decreases s.len() - self.current_char,
        {
            self.current_char = self.current_char + 1;
        }
    }

    /// Makes a number token; a hexadecimal number above `i64::MAX` is an
    /// error. The value as a double is not computed here.
    pub fn make_number(&mut self, is_hex: bool)
        requires
            old(self).token_start <= old(self).current_char <= old(self).source@.len(),
            is_hex ==> old(self).token_start + 2 <= old(self).current_char,
            is_hex ==> forall|i: int|
                old(self).token_start + 2 <= i < old(self).current_char ==> hex_digit_value(
                    #[trigger] old(self).source@[i],
                ) >= 0,
            old(self).current_line > i32::MIN,
        ensures
            ({
                let st = if is_hex && hex_value(
                    old(self).source@.subrange(
                        old(self).token_start + 2,
                        old(self).current_char as int,
                    ),
                ) > i64::MAX {
                    sp_lex_error(old(self).scan(), LexErrorKind::NumberTooLarge)
                } else {
                    old(self).scan()
                };
                final(self).view() == (ParserView {
                    st,
                    next: TokenView {
                        value: None,
                        ..sp_make_token(
                            old(self).next.view(),
                            TokenType::Number,
                            old(self).token_start as int,
                            st,
                        )
                    },
                    ..old(self).view()
                })
            }),
            final(self).vm == old(self).vm,
            final(self).parens@ == old(self).parens@,
    {
        if is_hex {
            if hex_literal_value(self.source, self.token_start + 2, self.current_char).is_none() {
                self.lex_error(LexErrorKind::NumberTooLarge);
            }
        }
        self.next.value = None;
        self.make_token(TokenType::Number);
    }

    /// Reads the rest of a decimal number and makes its token.
    pub fn read_number(&mut self)
        requires
            old(self).source@.len() <= MAX_SOURCE_LEN,
            old(self).token_start <= old(self).current_char <= old(self).source@.len(),
            i32::MIN < old(self).current_line < i32::MAX,
        ensures
            ({
                let st = sp_read_number(old(self).source@, old(self).scan());
                final(self).view() == (ParserView {
                    st,
                    next: TokenView {
                        value: None,
                        ..sp_make_token(
                            old(self).next.view(),
                            TokenType::Number,
                            old(self).token_start as int,
                            st,
                        )
                    },
                    ..old(self).view()
                })
            }),
            final(self).vm == old(self).vm,
            old(self).current_char <= final(self).current_char <= old(self).source@.len(),
            final(self).current_line == old(self).current_line,
            final(self).parens@ == old(self).parens@,
    {
        let ghost s = self.source@;
        self.skip_digits();
        if self.peek_char() == ('.' as u8) && is_digit_char(self.peek_next_char()) {
            self.next_char();
            self.skip_digits();
        }
        if self.peek_char() == ('e' as u8) || self.peek_char() == ('E' as u8) {
            self.next_char();
            if self.peek_char() == ('+' as u8) || self.peek_char() == ('-' as u8) {
                self.next_char();
            }
            if !is_digit_char(self.peek_char()) {
                self.lex_error(LexErrorKind::UnterminatedScientificNotation);
            }
            self.skip_digits();
        }
        self.make_number(false);
    }

    /// Reads the rest of a hexadecimal number whose `0` is read and makes
    /// its token.
    pub fn read_hex_number(&mut self)
        requires
            old(self).source@.len() <= MAX_SOURCE_LEN,
            old(self).token_start + 1 == old(self).current_char,
            old(self).current_char < old(self).source@.len(),
            char_at(old(self).source@, old(self).current_char as int) == 'x' as u8,
            1 <= old(self).current_line <= 2 * old(self).current_char + 1,
        ensures
            ({
                let st = sp_read_hex_number(
                    old(self).source@,
                    old(self).scan(),
                    old(self).token_start as int,
                );
                final(self).view() == (ParserView {
                    st,
                    next: TokenView {
                        value: None,
                        ..sp_make_token(
                            old(self).next.view(),
                            TokenType::Number,
                            old(self).token_start as int,
                            st,
                        )
                    },
                    ..old(self).view()
                })
            }),
            final(self).vm == old(self).vm,
            old(self).current_char < final(self).current_char <= old(self).source@.len(),
            old(self).current_line <= final(self).current_line,
            final(self).current_line <= 2 * final(self).current_char + 1,
            final(self).parens@ == old(self).parens@,
    {
        let ghost s = self.source@;
        self.next_char();
        let ghost st1 = self.scan();
        while self.read_hex_digit() != -1
            invariant_except_break
                self.source@ == s,
                s == old(self).source@,
                self.vm == old(self).vm,
                self.parens@ == old(self).parens@,
                s.len() <= MAX_SOURCE_LEN,
                old(self).current_char + 1 <= self.current_char <= s.len(),
                self.current_line == old(self).current_line,
                1 <= old(self).current_line <= 2 * old(self).current_char + 1,
                st1 == sp_next_char(s, old(self).scan()),
                sp_hex_run(s, self.scan()) == sp_hex_run(s, st1),
                forall|i: int|
                    old(self).token_start + 2 <= i < self.current_char ==> hex_digit_value(
                        #[trigger] s[i],
                    ) >= 0,
                self.view() == (ParserView { st: self.scan(), ..old(self).view() }),
            ensures
                self.source@ == s,
                self.vm == old(self).vm,
                self.parens@ == old(self).parens@,
                old(self).current_char + 1 <= self.current_char <= s.len(),
                old(self).current_line <= self.current_line <= old(self).current_line + 1,
                sp_hex_run(s, st1) == self.scan(),
                forall|i: int|
                    old(self).token_start + 2 <= i < self.current_char ==> hex_digit_value(
                        #[trigger] s[i],
                    ) >= 0,
                self.view() == (ParserView { st: self.scan(), ..old(self).view() }),
            decreases s.len() - self.current_char,
        {
        }
        self.make_number(true);
    }
    /// Makes a token whose type is given by the single byte that was read.
    fn single_char(&mut self, c: u8) -> (made: bool)
        requires
            old(self).token_start <= old(self).current_char,
            old(self).current_line > i32::MIN,
        ensures
            made == (single_char_token(c) is Some),
            made ==> final(self).view() == (ParserView {
                next: sp_make_token(
                    old(self).next.view(),
                    single_char_token(c)->0,
                    old(self).token_start as int,
                    old(self).scan(),
                ),
                ..old(self).view()
            }),
            !made ==> final(self).view() == old(self).view(),
            final(self).vm == old(self).vm,
            final(self).parens@ == old(self).parens@,
            final(self).current_char == old(self).current_char,
            final(self).current_line == old(self).current_line,
            final(self).token_start == old(self).token_start,
    {
        let t = if c == ('[' as u8) {
            TokenType::LeftBracket
        } else if c == (']' as u8) {
            TokenType::RightBracket
        } else if c == ('{' as u8) {
            TokenType::LeftBrace
        } else if c == ('}' as u8) {
            TokenType::RightBrace
        } else if c == (':' as u8) {
            TokenType::Colon
        } else if c == (',' as u8) {
            TokenType::Comma
        } else if c == ('*' as u8) {
            TokenType::Star
        } else if c == ('%' as u8) {
            TokenType::Percent
        } else if c == ('^' as u8) {
            TokenType::Caret
        } else if c == ('+' as u8) {
            TokenType::Plus
        } else if c == ('-' as u8) {
            TokenType::Minus
        } else if c == ('~' as u8) {
            TokenType::Tilde
        } else if c == ('?' as u8) {
            TokenType::Question
        } else if c == ('\n' as u8) {
            TokenType::Line
        } else {
            return false;
        };
        self.make_token(t);
        true
    }

    /// Lexes a parenthesis, whose byte `c` was just read, and makes its
    /// token.
    fn lex_paren(&mut self, c: u8)
        requires
            c == '(' as u8 || c == ')' as u8,
            old(self).source@.len() <= MAX_SOURCE_LEN,
            1 <= old(self).current_char <= old(self).source@.len(),
            old(self).token_start + 1 == old(self).current_char,
            c == char_at(old(self).source@, old(self).token_start as int),
            1 <= old(self).current_line <= 2 * old(self).current_char + 1,
            old(self).parens@.len() <= MAX_INTERPOLATION_NESTING,
            forall|i: int|
                0 <= i < old(self).parens@.len() ==> 1 <= #[trigger] old(self).parens@[i]
                    < old(self).current_char,
        ensures
            ({
                let out = sp_lex_paren(
                    old(self).source@,
                    old(self).scan(),
                    old(self).token_start as int,
                    old(self).next.view(),
                    c,
                );
                final(self).view() == (ParserView {
                    token_start: out.token_start,
                    st: out.st,
                    next: out.next,
                    ..old(self).view()
                })
            }),
            final(self).wf(),
            final(self).vm == old(self).vm,
            final(self).current_char >= old(self).current_char,
    {
        proof {
            reveal(sp_lex_paren);
        }
        if c == ('(' as u8) {
            if self.parens.len() > 0 {
                let n = self.parens.len();
                let top = self.parens[n - 1];
                self.parens.set(n - 1, top + 1);
                assert forall|i: int| 0 <= i < self.parens@.len() implies 1 <= #[trigger] self.parens@[i]
                    <= self.current_char by {
                    if i != n - 1 {
                        assert(self.parens@[i] == old(self).parens@[i]);
                    }
                }
            }
            self.make_token(TokenType::LeftParen);
            return;
        }
        if self.parens.len() > 0 {
            let n = self.parens.len();
            let top = self.parens[n - 1];
            self.parens.set(n - 1, top - 1);
            if top - 1 == 0 {
                self.parens.pop();
                assert(self.parens@ =~= old(self).parens@.drop_last());
                self.read_string();
                return;
            }
        }
        self.make_token(TokenType::RightParen);
    }

    /// Lexes an operator, a comment or blanks, whose first byte `c` was
    /// just read. Returns whether a token was made.
    #[verifier::spinoff_prover]
    #[verifier::rlimit(40)]
    fn lex_punct(&mut self, c: u8) -> (made: bool)
        requires
            is_punct_start(c),
            old(self).source@.len() <= MAX_SOURCE_LEN,
            1 <= old(self).current_char <= old(self).source@.len(),
            old(self).token_start + 1 == old(self).current_char,
            1 <= old(self).current_line <= 2 * old(self).current_char + 1,
            old(self).parens@.len() <= MAX_INTERPOLATION_NESTING,
            forall|i: int|
                0 <= i < old(self).parens@.len() ==> 1 <= #[trigger] old(self).parens@[i]
                    <= old(self).current_char,
        ensures
            match sp_lex_punct(
                old(self).source@,
                old(self).scan(),
                old(self).token_start as int,
                old(self).next.view(),
                c,
            ) {
                LexStep::Done(out) => made && final(self).view() == (ParserView {
                    token_start: out.token_start,
                    st: out.st,
                    next: out.next,
                    ..old(self).view()
                }),
                LexStep::Skip(st2) => !made && final(self).view() == (ParserView {
                    token_start: final(self).token_start as int,
                    st: st2,
                    ..old(self).view()
                }),
            },
            final(self).wf(),
            final(self).vm == old(self).vm,
            final(self).current_char >= old(self).current_char,
    {
        proof {
            reveal(sp_lex_punct);
        }
        if c == ('#' as u8) {
            if self.current_line == 1 && self.peek_char() == ('!' as u8) && self.peek_next_char()
                == ('/' as u8) {
                self.skip_line_comment();
                return false;
            }
            self.make_token(TokenType::Hash);
            return true;
        }
        if c == ('|' as u8) {
            self.two_char_token('|' as u8, TokenType::PipePipe, TokenType::Pipe);
            return true;
        }
        if c == ('&' as u8) {
            self.two_char_token('&' as u8, TokenType::AmpAmp, TokenType::Amp);
            return true;
        }
        if c == ('=' as u8) {
            self.two_char_token('=' as u8, TokenType::EQEQ, TokenType::EQ);
            return true;
        }
        if c == ('.' as u8) {
            if self.match_char('.' as u8) {
                self.two_char_token('.' as u8, TokenType::DotDotDot, TokenType::DotDot);
                return true;
            }
            self.make_token(TokenType::Dot);
            return true;
        }
        if c == ('/' as u8) {
            if self.match_char('/' as u8) {
                self.skip_line_comment();
                return false;
            }
            if self.match_char('*' as u8) {
                self.skip_block_comment();
                return false;
            }
            self.make_token(TokenType::Slash);
            return true;
        }
        if c == ('<' as u8) {
            if self.match_char('<' as u8) {
                self.make_token(TokenType::LTLT);
            } else {
                self.two_char_token('=' as u8, TokenType::LTEQ, TokenType::LT);
            }
            return true;
        }
        if c == ('>' as u8) {
            if self.match_char('>' as u8) {
                self.make_token(TokenType::GTGT);
            } else {
                self.two_char_token('=' as u8, TokenType::GTEQ, TokenType::GT);
            }
            return true;
        }
        self.skip_blanks();
        false
    }

    /// Lexes a string, name, field, keyword or number, whose first byte `c`
    /// was just read, and makes its token; any other byte is an error.
    fn lex_literal(&mut self, c: u8)
        requires
            !is_punct_start(c),
            c != 0,
            old(self).source@.len() <= MAX_SOURCE_LEN,
            1 <= old(self).current_char <= old(self).source@.len(),
            old(self).token_start + 1 == old(self).current_char,
            c == char_at(old(self).source@, old(self).token_start as int),
            1 <= old(self).current_line <= 2 * old(self).current_char + 1,
            old(self).parens@.len() <= MAX_INTERPOLATION_NESTING,
            forall|i: int|
                0 <= i < old(self).parens@.len() ==> 1 <= #[trigger] old(self).parens@[i]
                    <= old(self).current_char,
        ensures
            ({
                let out = sp_lex_literal(
                    old(self).source@,
                    old(self).scan(),
                    old(self).token_start as int,
                    old(self).next.view(),
                    c,
                );
                final(self).view() == (ParserView {
                    token_start: out.token_start,
                    st: out.st,
                    next: out.next,
                    ..old(self).view()
                })
            }),
            final(self).wf(),
            final(self).vm == old(self).vm,
            final(self).current_char >= old(self).current_char,
    {
        proof {
            reveal(sp_lex_literal);
        }
        if c == ('"' as u8) {
            if self.peek_char() == ('"' as u8) && self.peek_next_char() == ('"' as u8) {
                self.read_raw_string();
                return;
            }
            self.read_string();
            return;
        }
        if c == ('_' as u8) {
            let t = if self.peek_char() == ('_' as u8) {
                TokenType::StaticField
            } else {
                TokenType::Field
            };
            self.read_name(t, c);
            return;
        }
        if c == ('0' as u8) && self.peek_char() == ('x' as u8) {
            self.read_hex_number();
            return;
        }
        if is_name_char(c) {
            self.read_name(TokenType::Name, c);
        } else if is_digit_char(c) {
            self.read_number();
        } else {
            if c >= 32 && c <= 126 {
                self.lex_error(LexErrorKind::InvalidCharacter(c));
            } else {
                self.lex_error(LexErrorKind::InvalidByte(c));
            }
            self.next.tok_type = TokenType::Error;
            self.next.length = 0;
        }
    }

    /// One step of lexing from a byte that is not the end: makes a token,
    /// or skips blanks or a comment. Returns whether a token was made.
    fn lex_one(&mut self) -> (made: bool)
        requires
            old(self).wf(),
            char_at(old(self).source@, old(self).current_char as int) != 0,
        ensures
            match sp_lex_one(old(self).source@, old(self).scan(), old(self).next.view()) {
                LexStep::Done(out) => made && final(self).view() == (ParserView {
                    token_start: out.token_start,
                    st: out.st,
                    next: out.next,
                    ..old(self).view()
                }),
                LexStep::Skip(st2) => !made && final(self).view() == (ParserView {
                    token_start: final(self).token_start as int,
                    st: st2,
                    ..old(self).view()
                }),
            },
            final(self).wf(),
            final(self).vm == old(self).vm,
            final(self).current_char > old(self).current_char,
    {
        self.token_start = self.current_char;
        let c = self.next_char();
        if c == ('(' as u8) || c == (')' as u8) {
            self.lex_paren(c);
            return true;
        }
        if self.single_char(c) {
            return true;
        }
        if c == ('#' as u8) || c == ('|' as u8) || c == ('&' as u8) || c == ('=' as u8) || c == (
        '.' as u8) || c == ('/' as u8) || c == ('<' as u8) || c == ('>' as u8) || c == (' '
            as u8) || c == ('\r' as u8) || c == ('\t' as u8) {
            return self.lex_punct(c);
        }
        self.lex_literal(c);
        true
    }

    /// Moves to the next token: the current token becomes the previous one,
    /// the next one the current one, and a new next token is lexed, unless
    /// the next token is already the end of the file.
    pub fn next_token(&mut self)
        requires
            old(self).wf(),
        ensures
            final(self).wf(),
            final(self).vm == old(self).vm,
            final(self).view() == sp_next_token(old(self).view()),
            old(self).next.tok_type != TokenType::EOF ==> (final(self).current_char
                > old(self).current_char || final(self).next.tok_type == TokenType::EOF),
            final(self).current_char >= old(self).current_char,
    {
        let ghost s = self.source@;
        let ghost next0 = self.next.view();
        let ghost st0 = self.scan();
        let prev = self.current.duplicate();
        self.previous = prev;
        let cur = self.next.duplicate();
        self.current = cur;
        if matches!(self.next.tok_type, TokenType::EOF) || matches!(
            self.current.tok_type,
            TokenType::EOF
        ) {
            return;
        }
        while self.peek_char() != 0
            invariant
                self.wf(),
                self.source@ == s,
                s == old(self).source@,
                self.vm == old(self).vm,
                next0 == old(self).next.view(),
                next0.tok_type != TokenType::EOF,
                st0 == old(self).scan(),
                self.next.view() == next0,
                self.current.view() == next0,
                self.previous.view() == old(self).current.view(),
                self.current_char >= old(self).current_char,
                self.view().module == old(self).view().module,
                self.print_errors == old(self).print_errors,
                sp_lex(s, self.scan(), next0) == sp_lex(s, st0, next0),
            decreases s.len() + 2 - self.current_char,
        {
            proof {
                lemma_lex_one_skip(s, self.scan(), next0);
            }
            if self.lex_one() {
                return;
            }
        }
        assert(sp_lex(s, self.scan(), next0) == lex_tok(
            self.scan(),
            self.current_char as int,
            next0,
            TokenType::EOF,
        ));
        self.token_start = self.current_char;
        self.make_token(TokenType::EOF);
    }

    /// Skips a run of spaces, tabs and carriage returns.
    fn skip_blanks(&mut self)
        requires
            old(self).current_char <= old(self).source@.len(),
            old(self).source@.len() <= MAX_SOURCE_LEN,
        ensures
            final(self).view() == (ParserView {
                st: ScanState {
                    pos: blank_end(old(self).source@, old(self).current_char as int),
                    ..old(self).scan()
                },
                ..old(self).view()
            }),
            old(self).current_char <= final(self).current_char <= old(self).source@.len(),
            final(self).vm == old(self).vm,
            final(self).parens@ == old(self).parens@,
    {
        let ghost s = self.source@;
        while self.peek_char() == (' ' as u8) || self.peek_char() == ('\r' as u8)
            || self.peek_char() == ('\t' as u8)
            invariant
                self.source@ == s,
                s == old(self).source@,
                self.vm == old(self).vm,
                self.parens@ == old(self).parens@,
                s.len() <= MAX_SOURCE_LEN,
                old(self).current_char <= self.current_char <= s.len(),
                blank_end(s, self.current_char as int) == blank_end(
                    s,
                    old(self).current_char as int,
                ),
                self.view() == (ParserView {
                    st: ScanState { pos: self.current_char as int, ..old(self).scan() },
                    ..old(self).view()
                }),
            decreases s.len() - self.current_char,
        {
            self.current_char = self.current_char + 1;
        }
    }
}

} // verus!

verus! {

/// The compiler's hold on the token stream.
pub struct Compiler<'a> {
    pub parser: Parser<'a>,
}

/// A measure that every move to the next token decreases while the current
/// token is not the end of the file.
pub open spec fn token_measure(p: &Parser) -> int {
    3 * (p.source@.len() + 3 - p.current_char) + (if p.next.tok_type == TokenType::EOF {
        0int
    } else {
        2int
    }) + (if p.current.tok_type == TokenType::EOF {
        0int
    } else {
        1int
    })
}

impl<'a> Compiler<'a> {
    /// A compiler that reads its tokens from `parser`.
    pub fn new(parser: Parser<'a>) -> (c: Self)
        ensures
            c.parser == parser,
    {
        Compiler { parser }
    }

    /// The type of the current token.
    pub fn peek(&self) -> (t: TokenType)
        ensures
            t == self.parser.current.tok_type,
    {
        self.parser.current.tok_type
    }

    /// Moves past the current token if it has type `expected`.
    pub fn match_token(&mut self, expected: TokenType) -> (matched: bool)
        requires
            old(self).parser.wf(),
        ensures
            final(self).parser.wf(),
            final(self).parser.vm == old(self).parser.vm,
            matched == (old(self).parser.current.tok_type == expected),
            matched ==> final(self).parser.view() == sp_next_token(old(self).parser.view()),
            !matched ==> final(self).parser.view() == old(self).parser.view(),
            matched && expected != TokenType::EOF ==> token_measure(&final(self).parser)
                < token_measure(&old(self).parser),
    {
        if self.peek() != expected {
            return false;
        }
        self.parser.next_token();
        assert(self.parser.current.view() == old(self).parser.next.view());
        assert(self.parser.source@ == old(self).parser.source@);
        assert(self.parser.current.tok_type == old(self).parser.next.tok_type);
        proof {
            if old(self).parser.next.tok_type == TokenType::EOF {
                assert(self.parser.next.view() == old(self).parser.next.view());
                assert(self.parser.current_char == old(self).parser.current_char);
            }
        }
        true
    }

    /// Moves past the current token and all that follow it if it is a
    /// newline and they are newlines. Returns whether it was one.
    pub fn match_line(&mut self) -> (matched: bool)
        requires
            old(self).parser.wf(),
        ensures
            final(self).parser.wf(),
            final(self).parser.vm == old(self).parser.vm,
            matched == (old(self).parser.current.tok_type == TokenType::Line),
            !matched ==> final(self).parser.view() == old(self).parser.view(),
            matched ==> exists|n: nat|
                #![trigger sp_advance(old(self).parser.view(), n)]
                n >= 1 && final(self).parser.view() == sp_advance(old(self).parser.view(), n)
                    && forall|k: nat|
                    k < n ==> (#[trigger] sp_advance(old(self).parser.view(), k)).current.tok_type
                        == TokenType::Line,
            final(self).parser.current.tok_type != TokenType::Line,
    {
        if !self.match_token(TokenType::Line) {
            return false;
        }
        let ghost mut n: nat = 1;
        proof {
            assert(sp_advance(old(self).parser.view(), 0) == old(self).parser.view());
            assert(sp_advance(old(self).parser.view(), 1) == sp_next_token(
                sp_advance(old(self).parser.view(), 0),
            ));
        }
        loop
            invariant
                self.parser.wf(),
                self.parser.vm == old(self).parser.vm,
                old(self).parser.current.tok_type == TokenType::Line,
                n >= 1,
                self.parser.view() == sp_advance(old(self).parser.view(), n),
                forall|k: nat|
                    k < n ==> (#[trigger] sp_advance(old(self).parser.view(), k)).current.tok_type
                        == TokenType::Line,
            ensures
                self.parser.wf(),
                self.parser.vm == old(self).parser.vm,
                n >= 1,
                self.parser.view() == sp_advance(old(self).parser.view(), n),
                forall|k: nat|
                    k < n ==> (#[trigger] sp_advance(old(self).parser.view(), k)).current.tok_type
                        == TokenType::Line,
                self.parser.current.tok_type != TokenType::Line,
            decreases token_measure(&self.parser),
        {
            let ghost before = self.parser.view();
            if !self.match_token(TokenType::Line) {
                break;
            }
            proof {
                assert(sp_advance(old(self).parser.view(), n + 1) == sp_next_token(
                    sp_advance(old(self).parser.view(), n),
                ));
                assert forall|k: nat| k < n + 1 implies (#[trigger] sp_advance(
                    old(self).parser.view(),
                    k,
                )).current.tok_type == TokenType::Line by {
                    if k == n {
                        assert(before.current.tok_type == TokenType::Line);
                    }
                }
                n = n + 1;
            }
        }
        true
    }

    /// Moves past any newline tokens.
    pub fn ignore_newlines(&mut self)
        requires
            old(self).parser.wf(),
        ensures
            final(self).parser.wf(),
            final(self).parser.vm == old(self).parser.vm,
            old(self).parser.current.tok_type != TokenType::Line ==> final(self).parser.view()
                == old(self).parser.view(),
            old(self).parser.current.tok_type == TokenType::Line ==> exists|n: nat|
                #![trigger sp_advance(old(self).parser.view(), n)]
                n >= 1 && final(self).parser.view() == sp_advance(old(self).parser.view(), n)
                    && forall|k: nat|
                    k < n ==> (#[trigger] sp_advance(old(self).parser.view(), k)).current.tok_type
                        == TokenType::Line,
            final(self).parser.current.tok_type != TokenType::Line,
    {
        self.match_line();
    }
}

} // verus!

verus! {

/// Once the next token is the end of the file, it stays so: moving on
/// makes it the current token and lexes nothing more, however often the
/// parser moves on.
pub proof fn law_eof_is_sticky(v: ParserView, n: nat)
    requires
        v.next.tok_type == TokenType::EOF,
        n >= 1,
    ensures
        sp_advance(v, n).next == v.next,
        sp_advance(v, n).current == v.next,
        sp_advance(v, n).st == v.st,
        sp_advance(v, n).token_start == v.token_start,
    decreases n,
{
    assert(sp_advance(v, 0) == v);
    assert(sp_advance(v, n) == sp_next_token(sp_advance(v, (n - 1) as nat)));
    if n > 1 {
        law_eof_is_sticky(v, (n - 1) as nat);
    }
}

/// A token made by lexing, other than the error token of a byte that
/// starts none, spans the source from where it starts up to where the
/// lexer then stands, and a line token lies on the line of its newline.
pub proof fn law_token_spans_its_text(s: Seq<u8>, st: ScanState, next: TokenView)
    ensures
        ({
            let out = sp_lex(s, st, next);
            out.next.tok_type != TokenType::Error ==> {
                &&& out.next.start == out.token_start
                &&& out.next.length == out.st.pos - out.token_start
                &&& out.next.tok_type == TokenType::Line ==> out.next.line == out.st.line - 1
            }
        }),
    decreases s.len() + 2 - st.pos,
{
    reveal(sp_lex_paren);
    reveal(sp_lex_punct);
    reveal(sp_lex_literal);
    if !(char_at(s, st.pos) == 0 || st.pos < 0) {
        match sp_lex_one(s, st, next) {
            LexStep::Done(out) => {},
            LexStep::Skip(st2) => {
                lemma_lex_one_skip(s, st, next);
                law_token_spans_its_text(s, st2, next);
            },
        }
    }
}

} // verus!
