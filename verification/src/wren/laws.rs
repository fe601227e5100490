use vstd::prelude::*;

use super::compiler::{
    char_at, digits_end, keyword_type, name_end, sp_lex, sp_lex_literal, utf8_encode, ScanState,
    TokenType, TokenView,
};

verus! {

/// A continuation byte of UTF-8: `10xxxxxx`.
pub open spec fn is_continuation(b: u8) -> bool {
    0x80 <= b < 0xc0
}

/// `b` is one well-formed UTF-8 sequence: a lead byte whose high bits give
/// the sequence's length, followed by that many continuation bytes.
pub open spec fn utf8_well_formed(b: Seq<u8>) -> bool {
    ||| b.len() == 1 && b[0] < 0x80
    ||| b.len() == 2 && 0xc0 <= b[0] < 0xe0 && is_continuation(b[1])
    ||| b.len() == 3 && 0xe0 <= b[0] < 0xf0 && is_continuation(b[1]) && is_continuation(b[2])
    ||| b.len() == 4 && 0xf0 <= b[0] < 0xf8 && is_continuation(b[1]) && is_continuation(b[2])
        && is_continuation(b[3])
}

/// The code point that a well-formed UTF-8 sequence stands for: the payload
/// bits of its bytes, six from each continuation byte.
pub open spec fn utf8_decode(b: Seq<u8>) -> int {
    if b.len() == 1 {
        b[0] as int
    } else if b.len() == 2 {
        (b[0] - 0xc0) * 64 + (b[1] - 0x80)
    } else if b.len() == 3 {
        (b[0] - 0xe0) * 4096 + (b[1] - 0x80) * 64 + (b[2] - 0x80)
    } else {
        (b[0] - 0xf0) * 262144 + (b[1] - 0x80) * 4096 + (b[2] - 0x80) * 64 + (b[3] - 0x80)
    }
}

/// A `\u` or `\U` escape writes the shortest UTF-8 encoding of its code
/// point: one byte below 0x80, two below 0x800, three below 0x10000 and four
/// up to 0x10ffff; the bytes are well-formed UTF-8 and decode back to the
/// code point.
pub proof fn law_utf8_encoding_is_shortest_and_decodes(v: int)
    requires
        0 <= v <= 0x10ffff,
    ensures
        utf8_encode(v).len() == (if v < 0x80 {
            1int
        } else if v < 0x800 {
            2int
        } else if v < 0x10000 {
            3int
        } else {
            4int
        }),
        utf8_well_formed(utf8_encode(v)),
        utf8_decode(utf8_encode(v)) == v,
{
    let b = utf8_encode(v);
    if v <= 0x7f {
    } else if v <= 0x7ff {
        assert(v == (v / 64) * 64 + v % 64);
    } else if v <= 0xffff {
        assert((v / 64) / 64 == v / 4096);
        assert(v / 64 == ((v / 64) / 64) * 64 + (v / 64) % 64);
        assert(v == (v / 64) * 64 + v % 64);
    } else {
        assert((v / 64) / 64 == v / 4096);
        assert((v / 4096) / 64 == v / 262144);
        assert(v / 4096 == ((v / 4096) / 64) * 64 + (v / 4096) % 64);
        assert(v / 64 == ((v / 64) / 64) * 64 + (v / 64) % 64);
        assert(v == (v / 64) * 64 + v % 64);
    }
}

/// An ASCII letter.
pub open spec fn ascii_letter(c: u8) -> bool {
    ('A' as u8 <= c <= 'Z' as u8) || ('a' as u8 <= c <= 'z' as u8)
}

/// An ASCII decimal digit.
pub open spec fn ascii_digit(c: u8) -> bool {
    '0' as u8 <= c <= '9' as u8
}

/// A byte that may stand inside a name: a letter, a digit or `_`.
pub open spec fn word_byte(c: u8) -> bool {
    ascii_letter(c) || ascii_digit(c) || c == '_' as u8
}

/// A run of name bytes from `p` up to `end` ends a name at `end`.
pub proof fn lemma_name_run_ends(s: Seq<u8>, p: int, end: int)
    requires
        p <= end,
        forall|i: int| p <= i < end ==> word_byte(#[trigger] char_at(s, i)),
        !word_byte(char_at(s, end)),
    ensures
        name_end(s, p) == end,
    decreases end - p,
{
    if p < end {
        lemma_name_run_ends(s, p + 1, end);
    }
}

/// A run of digits from `p` up to `end` ends a number's digits at `end`.
pub proof fn lemma_digit_run_ends(s: Seq<u8>, p: int, end: int)
    requires
        p <= end,
        forall|i: int| p <= i < end ==> ascii_digit(#[trigger] char_at(s, i)),
        !ascii_digit(char_at(s, end)),
    ensures
        digits_end(s, p) == end,
    decreases end - p,
{
    if p < end {
        lemma_digit_run_ends(s, p + 1, end);
    }
}

/// A name is lexed whole: a run of ASCII letters, digits and `_` that
/// starts with a letter, upper or lower case, makes one token spanning the
/// whole run, a keyword's token when it spells one and a name otherwise,
/// whose value is the run's bytes.
pub proof fn law_names_lex_whole(s: Seq<u8>, st: ScanState, next: TokenView, end: int)
    requires
        0 <= st.pos < end,
        ascii_letter(char_at(s, st.pos)),
        forall|i: int| st.pos < i < end ==> word_byte(#[trigger] char_at(s, i)),
        !word_byte(char_at(s, end)),
    ensures
        sp_lex(s, st, next).st.pos == end,
        sp_lex(s, st, next).next.start == st.pos,
        sp_lex(s, st, next).next.length == end - st.pos,
        sp_lex(s, st, next).next.tok_type == (match keyword_type(s.subrange(st.pos, end)) {
            Some(k) => k,
            None => TokenType::Name,
        }),
        sp_lex(s, st, next).next.value == Some(s.subrange(st.pos, end)),
{
    reveal(sp_lex_literal);
    let c = char_at(s, st.pos);
    lemma_name_run_ends(s, st.pos + 1, end);
    if end - 1 > st.pos {
        assert(word_byte(char_at(s, end - 1)));
    }
    assert(end <= s.len());
    assert(seq![c] + s.subrange(st.pos + 1, end) =~= s.subrange(st.pos, end));
}

/// The exponent of a number stands from `p` to `end`: an `e` or `E`, an
/// optional sign, and at least one digit; or there is none, and `end` is
/// `p`, where neither `e` nor `E` stands.
pub open spec fn exponent_from(s: Seq<u8>, p: int, end: int) -> bool {
    ||| end == p && char_at(s, p) != 'e' as u8 && char_at(s, p) != 'E' as u8
    ||| (char_at(s, p) == 'e' as u8 || char_at(s, p) == 'E' as u8) && {
        let q = if char_at(s, p + 1) == '+' as u8 || char_at(s, p + 1) == '-' as u8 {
            p + 2
        } else {
            p + 1
        };
        &&& q < end
        &&& forall|i: int| q <= i < end ==> ascii_digit(#[trigger] char_at(s, i))
    }
}

/// A decimal number is lexed whole, whatever its first digit: digits from
/// the start up to `p1`, then either nothing or a `.` and at least one digit
/// up to `p2`, then an optional exponent up to `end`, make one number token
/// spanning all of it. Only `0x` starts something else, a hexadecimal
/// number.
pub proof fn law_decimal_numbers_lex_whole(
    s: Seq<u8>,
    st: ScanState,
    next: TokenView,
    p1: int,
    p2: int,
    end: int,
)
    requires
        0 <= st.pos < p1 <= p2 <= end,
        forall|i: int| st.pos <= i < p1 ==> ascii_digit(#[trigger] char_at(s, i)),
        !(char_at(s, st.pos) == '0' as u8 && char_at(s, st.pos + 1) == 'x' as u8),
        (p2 == p1 && !(char_at(s, p1) == '.' as u8 && ascii_digit(char_at(s, p1 + 1)))) || (
        char_at(s, p1) == '.' as u8 && p1 + 1 < p2 && forall|i: int|
            p1 < i < p2 ==> ascii_digit(#[trigger] char_at(s, i))),
        !ascii_digit(char_at(s, p2)),
        exponent_from(s, p2, end),
        !ascii_digit(char_at(s, end)),
    ensures
        sp_lex(s, st, next).st.pos == end,
        sp_lex(s, st, next).next.tok_type == TokenType::Number,
        sp_lex(s, st, next).next.start == st.pos,
        sp_lex(s, st, next).next.length == end - st.pos,
{
    reveal(sp_lex_literal);
    lemma_digit_run_ends(s, st.pos + 1, p1);
    if p2 != p1 {
        lemma_digit_run_ends(s, p1 + 1, p2);
    }
    if end != p2 {
        let q = if char_at(s, p2 + 1) == '+' as u8 || char_at(s, p2 + 1) == '-' as u8 {
            p2 + 2
        } else {
            p2 + 1
        };
        lemma_digit_run_ends(s, q, end);
    }
}

} // verus!
