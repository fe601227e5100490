use vstd::prelude::*;
use vstd::string::StringExecFns;

use super::compiler::{Diagnostic, EscapeKind, LexErrorKind, Parser};
use super::ErrorType;

verus! {

/// The character of the decimal digit `d`.
pub open spec fn digit_char(d: int) -> char {
    if d == 0 {
        '0'
    } else if d == 1 {
        '1'
    } else if d == 2 {
        '2'
    } else if d == 3 {
        '3'
    } else if d == 4 {
        '4'
    } else if d == 5 {
        '5'
    } else if d == 6 {
        '6'
    } else if d == 7 {
        '7'
    } else if d == 8 {
        '8'
    } else {
        '9'
    }
}

/// `n` written in decimal, without leading zeros.
pub open spec fn decimal_text(n: nat) -> Seq<char>
    decreases n,
{
    if n < 10 {
        seq![digit_char(n as int)]
    } else {
        decimal_text(n / 10).push(digit_char((n % 10) as int))
    }
}

/// How an escape sequence is called in error messages.
pub open spec fn escape_name(k: EscapeKind) -> Seq<char> {
    match k {
        EscapeKind::Byte => "byte"@,
        EscapeKind::Unicode => "Unicode"@,
    }
}

/// The message that reports a lexing error of kind `kind`.
pub open spec fn lex_message(kind: LexErrorKind) -> Seq<char> {
    match kind {
        LexErrorKind::UnterminatedBlockComment => "Unterminated block comment."@,
        LexErrorKind::UnterminatedRawString => "Unterminated raw string."@,
        LexErrorKind::UnterminatedString => "Unterminated string."@,
        LexErrorKind::ExpectParenAfterPercent => "Expect '(' after '%'."@,
        LexErrorKind::InterpolationTooDeep => "Interpolation may only nest 8 levels deep."@,
        LexErrorKind::InvalidEscapeCharacter(c) => "Invalid escape character '"@ + seq![
            c as char,
        ] + "'"@,
        LexErrorKind::IncompleteEscape(k) => "Incomplete "@ + escape_name(k)
            + " escape sequence."@,
        LexErrorKind::InvalidEscape(k) => "Invalid "@ + escape_name(k) + " escape sequence."@,
        LexErrorKind::InvalidCharacter(c) => "Invalid character: '"@ + decimal_text(c as nat)
            + "'."@,
        LexErrorKind::InvalidByte(c) => "Invalid byte 0x"@ + decimal_text(c as nat) + "."@,
        LexErrorKind::UnterminatedScientificNotation => "Unterminated scientific notation."@,
        LexErrorKind::NumberTooLarge => "Number literal was too large (8)."@,
    }
}

/// Appends `c` to `s` with `String::push`, which adds the character at
/// the end and changes nothing else.
#[verifier::external_body]
fn push_char(s: &mut String, c: char)
    ensures
        final(s)@ == old(s)@.push(c),
{
    s.push(c);
}

fn digit(d: u8) -> (c: char)
    requires
        d < 10,
    ensures
        c == digit_char(d as int),
{
    if d == 0 {
        '0'
    } else if d == 1 {
        '1'
    } else if d == 2 {
        '2'
    } else if d == 3 {
        '3'
    } else if d == 4 {
        '4'
    } else if d == 5 {
        '5'
    } else if d == 6 {
        '6'
    } else if d == 7 {
        '7'
    } else if d == 8 {
        '8'
    } else {
        '9'
    }
}

/// Appends `n` in decimal to `s`.
fn push_decimal(s: &mut String, n: u8)
    ensures
        final(s)@ == old(s)@ + decimal_text(n as nat),
{
    proof {
        reveal_with_fuel(decimal_text, 3);
    }
    if n >= 100 {
        push_char(s, digit(n / 100));
    }
    if n >= 10 {
        push_char(s, digit((n / 10) % 10));
    }
    push_char(s, digit(n % 10));
    proof {
        let nn = n as nat;
        if n >= 100 {
            assert(decimal_text(nn / 100) == seq![digit_char((n / 100) as int)]);
            assert(decimal_text(nn / 10) == decimal_text(nn / 100).push(digit_char(((n / 10) % 10) as int)));
        }
        assert(old(s)@ + decimal_text(nn) =~= final(s)@);
    }
}

impl LexErrorKind {
    /// The message that reports this error.
    pub fn message(&self) -> (m: String)
        ensures
            m@ == lex_message(*self),
    {
        match *self {
            LexErrorKind::UnterminatedBlockComment => String::from_str("Unterminated block comment."),
            LexErrorKind::UnterminatedRawString => String::from_str("Unterminated raw string."),
            LexErrorKind::UnterminatedString => String::from_str("Unterminated string."),
            LexErrorKind::ExpectParenAfterPercent => String::from_str("Expect '(' after '%'."),
            LexErrorKind::InterpolationTooDeep => String::from_str(
                "Interpolation may only nest 8 levels deep.",
            ),
            LexErrorKind::InvalidEscapeCharacter(c) => {
                let mut m = String::from_str("Invalid escape character '");
                push_char(&mut m, c as char);
                m.append("'");
                m
            },
            LexErrorKind::IncompleteEscape(k) => {
                let mut m = String::from_str("Incomplete ");
                match k {
                    EscapeKind::Byte => m.append("byte"),
                    EscapeKind::Unicode => m.append("Unicode"),
                }
                m.append(" escape sequence.");
                m
            },
            LexErrorKind::InvalidEscape(k) => {
                let mut m = String::from_str("Invalid ");
                match k {
                    EscapeKind::Byte => m.append("byte"),
                    EscapeKind::Unicode => m.append("Unicode"),
                }
                m.append(" escape sequence.");
                m
            },
            LexErrorKind::InvalidCharacter(c) => {
                let mut m = String::from_str("Invalid character: '");
                push_decimal(&mut m, c);
                m.append("'.");
                m
            },
            LexErrorKind::InvalidByte(c) => {
                let mut m = String::from_str("Invalid byte 0x");
                push_decimal(&mut m, c);
                m.append(".");
                m
            },
            LexErrorKind::UnterminatedScientificNotation => String::from_str(
                "Unterminated scientific notation.",
            ),
            LexErrorKind::NumberTooLarge => String::from_str("Number literal was too large (8)."),
        }
    }
}

/// What the host's error callback receives for one error: the kind of
/// error, the module's name, the line, and the message.
pub struct ErrorReport {
    pub error_type: ErrorType,
    pub module: String,
    pub line: i32,
    pub message: String,
}

impl View for ErrorReport {
    type V = (ErrorType, Seq<char>, int, Seq<char>);

    open spec fn view(&self) -> Self::V {
        (self.error_type, self.module@, self.line as int, self.message@)
    }
}

/// The name under which errors of a module are reported.
pub open spec fn module_label(module: Option<Seq<char>>) -> Seq<char> {
    match module {
        Some(name) => name,
        None => "<unknown>"@,
    }
}

/// The report of the recorded error `d` in the module named `module`: a
/// compile error, with the label and the message joined by ": ".
pub open spec fn report_of(d: (i32, Seq<char>, Seq<char>), module: Option<Seq<char>>) -> (
    ErrorType,
    Seq<char>,
    int,
    Seq<char>,
) {
    (ErrorType::WrenErrorCompile, module_label(module), d.0 as int, d.1 + ": "@ + d.2)
}

impl<'a> Parser<'a> {
    /// The report that the host's error callback receives for `d`.
    pub fn error_report(&self, d: &Diagnostic) -> (r: ErrorReport)
        ensures
            r@ == report_of(d@, self.view().module),
    {
        let module = match self.module {
            Some(m) => String::from_str(m),
            None => String::from_str("<unknown>"),
        };
        let mut message = d.label.clone();
        message.append(": ");
        message.append(d.message.as_str());
        ErrorReport { error_type: ErrorType::WrenErrorCompile, module, line: d.line, message }
    }

    /// The reports of the errors recorded so far, in the order they were
    /// reported: what the host's error callback receives, one call each.
    pub fn error_reports(&self) -> (r: Vec<ErrorReport>)
        ensures
            r@.len() == self.diagnostics@.len(),
            forall|i: int|
                0 <= i < r@.len() ==> #[trigger] r@[i]@ == report_of(
                    self.diagnostics@[i]@,
                    self.view().module,
                ),
    {
        let mut out: Vec<ErrorReport> = Vec::new();
        let mut i: usize = 0;
        while i < self.diagnostics.len()
            invariant
                i <= self.diagnostics@.len(),
                out@.len() == i,
                forall|j: int|
                    0 <= j < i ==> #[trigger] out@[j]@ == report_of(
                        self.diagnostics@[j]@,
                        self.view().module,
                    ),
            decreases self.diagnostics@.len() - i,
        {
            let r = self.error_report(&self.diagnostics[i]);
            out.push(r);
            i = i + 1;
        }
        out
    }
}

} // verus!
