//! Positioned parse errors and validation warnings.

use vstd::prelude::*;
use vstd::string::StringExecFns;

verus! {

/// The decimal digits of `n`.
pub open spec fn decimal_digits(n: nat) -> Seq<char>
    decreases n,
{
    let d = ((n % 10) + 48) as char;
    if n < 10 {
        seq![d]
    } else {
        decimal_digits(n / 10).push(d)
    }
}

/// `n` written in decimal, with a leading `-` when negative.
pub open spec fn decimal(n: int) -> Seq<char> {
    if n < 0 {
        seq!['-'] + decimal_digits((-n) as nat)
    } else {
        decimal_digits(n as nat)
    }
}


/// A parse/validation failure, positioned at a byte offset into the input.
#[derive(Debug, PartialEq, Eq)]
pub struct ParseError {
    /// Byte offset into the source expression where the problem was detected.
    pub pos: usize,
    /// Human-readable description.
    pub message: String,
}

impl Clone for ParseError {
    fn clone(&self) -> (r: ParseError)
        ensures
            r == *self,
    {
        ParseError { pos: self.pos, message: self.message.clone() }
    }
}

impl View for ParseError {
    type V = (usize, Seq<char>);

    open spec fn view(&self) -> (usize, Seq<char>) {
        (self.pos, self.message@)
    }
}

impl ParseError {
    pub fn new(pos: usize, message: &str) -> (r: ParseError)
        ensures
            r@ == (pos, message@),
    {
        ParseError { pos, message: message.to_owned() }
    }

    /// The one-line rendering `parse error at {pos}: {message}`.
    pub fn describe(&self) -> (s: String)
        ensures
            s@ == "parse error at "@ + decimal(self.pos as int) + ": "@ + self.message@,
    {
        proof {
            reveal_strlit("parse error");
            reveal_strlit(" at ");
            reveal_strlit("parse error at ");
            assert("parse error"@ + " at "@ =~= "parse error at "@);
        }
        describe_positioned("parse error", self.pos, &self.message)
    }
}

/// A non-fatal diagnostic: the expression parsed, but is (e.g.) statically
/// unsatisfiable. Carries the byte offset of the offending component.
#[derive(Debug, PartialEq, Eq)]
pub struct Warning {
    pub pos: usize,
    pub message: String,
}

impl Clone for Warning {
    fn clone(&self) -> (r: Warning)
        ensures
            r == *self,
    {
        Warning { pos: self.pos, message: self.message.clone() }
    }
}

impl View for Warning {
    type V = (usize, Seq<char>);

    open spec fn view(&self) -> (usize, Seq<char>) {
        (self.pos, self.message@)
    }
}

impl Warning {
    pub fn new(pos: usize, message: &str) -> (r: Warning)
        ensures
            r@ == (pos, message@),
    {
        Warning { pos, message: message.to_owned() }
    }

    /// The one-line rendering `warning at {pos}: {message}`.
    pub fn describe(&self) -> (s: String)
        ensures
            s@ == "warning at "@ + decimal(self.pos as int) + ": "@ + self.message@,
    {
        proof {
            reveal_strlit("warning");
            reveal_strlit(" at ");
            reveal_strlit("warning at ");
            assert("warning"@ + " at "@ =~= "warning at "@);
        }
        describe_positioned("warning", self.pos, &self.message)
    }
}

/// The one runtime failure: an IANA time-zone identifier that does not
/// resolve to a usable zone (unknown, invalid, or an unreadable TZif entry).
/// Parse errors aside, nothing else in the crate fails.
#[derive(Debug, PartialEq, Eq)]
pub struct UnknownTimeZone {
    /// The identifier that failed to resolve.
    pub id: String,
    /// What went wrong.
    pub message: String,
}

impl Clone for UnknownTimeZone {
    fn clone(&self) -> (r: UnknownTimeZone)
        ensures
            r == *self,
    {
        UnknownTimeZone { id: self.id.clone(), message: self.message.clone() }
    }
}

impl View for UnknownTimeZone {
    type V = (Seq<char>, Seq<char>);

    open spec fn view(&self) -> (Seq<char>, Seq<char>) {
        (self.id@, self.message@)
    }
}

impl UnknownTimeZone {
    pub fn new(id: &str, message: &str) -> (r: UnknownTimeZone)
        ensures
            r@ == (id@, message@),
    {
        UnknownTimeZone { id: id.to_owned(), message: message.to_owned() }
    }

    /// The one-line rendering `unknown time zone {id}: {message}`.
    pub fn describe(&self) -> (s: String)
        ensures
            s@ == "unknown time zone "@ + self.id@ + ": "@ + self.message@,
    {
        describe_zone(&self.id, &self.message)
    }
}

/// The decimal digit `d` as a one-character string.
fn digit_str(d: u64) -> (s: &'static str)
    requires
        d < 10,
    ensures
        s@ == seq![((d + 48) as char)],
{
    proof {
        reveal_strlit("0");
        reveal_strlit("1");
        reveal_strlit("2");
        reveal_strlit("3");
        reveal_strlit("4");
        reveal_strlit("5");
        reveal_strlit("6");
        reveal_strlit("7");
        reveal_strlit("8");
        reveal_strlit("9");
    }
    if d == 0 {
        "0"
    } else if d == 1 {
        "1"
    } else if d == 2 {
        "2"
    } else if d == 3 {
        "3"
    } else if d == 4 {
        "4"
    } else if d == 5 {
        "5"
    } else if d == 6 {
        "6"
    } else if d == 7 {
        "7"
    } else if d == 8 {
        "8"
    } else {
        "9"
    }
}

/// Appends the decimal digits of `n` to `s`.
fn push_digits(s: &mut String, n: u64)
    ensures
        final(s)@ == old(s)@ + decimal_digits(n as nat),
    decreases n,
{
    if n >= 10 {
        push_digits(s, n / 10);
    }
    let d = digit_str(n % 10);
    s.append(d);
    proof {
        let d = ((n as nat % 10) + 48) as char;
        if n >= 10 {
            assert(decimal_digits(n as nat) == decimal_digits((n / 10) as nat).push(d));
            assert(decimal_digits((n / 10) as nat).push(d) =~= decimal_digits((n / 10) as nat) + seq![d]);
        }
    }
}

/// Appends `n` written in decimal (led by `-` when negative) to `s`.
pub(crate) fn push_decimal(s: &mut String, n: i64)
    ensures
        final(s)@ == old(s)@ + decimal(n as int),
{
    if n < 0 {
        proof {
            reveal_strlit("-");
        }
        s.append("-");
        let m: u64 = if n == i64::MIN { 9_223_372_036_854_775_808 } else { (-n) as u64 };
        push_digits(s, m);
    } else {
        push_digits(s, n as u64);
    }
}

/// `{kind} at {pos}: {message}`.
fn describe_positioned(kind: &str, pos: usize, message: &String) -> (s: String)
    ensures
        s@ == kind@ + " at "@ + decimal(pos as int) + ": "@ + message@,
{
    let mut s = kind.to_owned();
    s.append(" at ");
    push_digits(&mut s, pos as u64);
    s.append(": ");
    s.append(message.as_str());
    s
}

/// `unknown time zone {id}: {message}`.
fn describe_zone(id: &String, message: &String) -> (s: String)
    ensures
        s@ == "unknown time zone "@ + id@ + ": "@ + message@,
{
    let mut s = "unknown time zone ".to_owned();
    s.append(id.as_str());
    s.append(": ");
    s.append(message.as_str());
    s
}

} // verus!
