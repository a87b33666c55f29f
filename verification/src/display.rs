//! Decimal renderings of the few values the surrounding program shows to
//! people: money, releases, and sync errors.

use vstd::prelude::*;

verus! {

use vstd::string::StringExecFns;
use crate::inv::Usd;
use crate::protocol::{IoErr, Release, ServerErr, spec_current_release};

/// The character of one decimal digit.
pub open spec fn spec_digit_char(d: int) -> char
    recommends
        0 <= d <= 9,
{
    if d == 0 {
        '0'
    } else if d == 1 {
        '1'
    } else if d == 2 {
        '2'
    } else if d == 3 {
        '3'
    } else if d == 4 {
        '4'
    } else if d == 5 {
        '5'
    } else if d == 6 {
        '6'
    } else if d == 7 {
        '7'
    } else if d == 8 {
        '8'
    } else {
        '9'
    }
}

/// The decimal spelling of a number, most significant digit first, with no
/// leading zeroes.
pub open spec fn spec_decimal(n: int) -> Seq<char>
    recommends
        n >= 0,
    decreases n,
{
    if n < 10 {
        seq![spec_digit_char(n)]
    } else {
        spec_decimal(n / 10).push(spec_digit_char(n % 10))
    }
}

/// Appends one decimal digit.
fn push_digit(out: &mut String, d: u32)
    requires
        d <= 9,
    ensures
        final(out)@ == old(out)@ + seq![spec_digit_char(d as int)],
{
    let s = match d {
        0 => "0",
        1 => "1",
        2 => "2",
        3 => "3",
        4 => "4",
        5 => "5",
        6 => "6",
        7 => "7",
        8 => "8",
        _ => "9",
    };
    proof {
        reveal_strlit("0");
        reveal_strlit("1");
        reveal_strlit("2");
        reveal_strlit("3");
        reveal_strlit("4");
        reveal_strlit("5");
        reveal_strlit("6");
        reveal_strlit("7");
        reveal_strlit("8");
        reveal_strlit("9");
        assert(s@ =~= seq![spec_digit_char(d as int)]);
    }
    out.append(s);
}

/// Appends the decimal spelling of `n`.
fn push_decimal(out: &mut String, n: u32)
    ensures
        final(out)@ == old(out)@ + spec_decimal(n as int),
    decreases n,
{
    if n < 10 {
        push_digit(out, n);
    } else {
        push_decimal(out, n / 10);
        push_digit(out, n % 10);
        proof {
            assert(out@ =~= old(out)@ + spec_decimal(n as int));
        }
    }
}

/// The decimal spelling of a 32-bit number.
pub fn u32_string(n: u32) -> (r: String)
    ensures
        r@ == spec_decimal(n as int),
{
    let mut out = String::new();
    push_decimal(&mut out, n);
    proof {
        assert(out@ =~= spec_decimal(n as int));
    }
    out
}

/// What a fixed-point money amount reads like: the dollars, a point, then
/// the cents as exactly two digits.
pub open spec fn spec_usd_string(u: Usd) -> Seq<char> {
    spec_decimal(u.0 as int / 100) + "."@ + seq![
        spec_digit_char((u.0 as int % 100) / 10),
        spec_digit_char(u.0 as int % 10),
    ]
}

impl Usd {
    /// This amount as text.
    pub fn display_string(&self) -> (r: String)
        ensures
            r@ == spec_usd_string(*self),
    {
        let mut out = String::new();
        push_decimal(&mut out, self.0 / 100);
        out.append(".");
        let cents = self.0 % 100;
        push_digit(&mut out, cents / 10);
        push_digit(&mut out, cents % 10);
        out
    }
}

/// What a release reads like: its three parts separated by points.
pub open spec fn spec_release_string(r: Release) -> Seq<char> {
    spec_decimal(r.0 as int) + "."@ + spec_decimal(r.1 as int) + "."@ + spec_decimal(r.2 as int)
}

impl Release {
    /// This release as text.
    pub fn display_string(&self) -> (r: String)
        ensures
            r@ == spec_release_string(*self),
    {
        let mut out = String::new();
        push_decimal(&mut out, self.0 as u32);
        out.append(".");
        push_decimal(&mut out, self.1 as u32);
        out.append(".");
        push_decimal(&mut out, self.2 as u32);
        out
    }
}

/// What a transport failure reads like.
pub open spec fn spec_io_err_string(e: IoErr) -> Seq<char> {
    match e {
        IoErr::Closed => "connection closed"@,
        IoErr::TimedOut => "timed out"@,
        IoErr::WouldBlock => "would block"@,
        IoErr::UnexpectedCode => "unexpected code received"@,
        IoErr::InvalidData => "invalid data"@,
        IoErr::Other => "io error"@,
    }
}

/// What a sync failure reads like when surfaced to the user.
pub open spec fn spec_server_err_string(e: ServerErr) -> Seq<char> {
    match e {
        ServerErr::TimedOut => "Timed Out"@,
        ServerErr::OtherIo(io) => spec_io_err_string(io),
        ServerErr::IncompatibleRelease(rel) => "Incompatible release (server release: "@
            + spec_release_string(rel) + ") (current release: "@ + spec_release_string(
            spec_current_release(),
        ) + ")"@,
    }
}

impl ServerErr {
    /// This failure as a message for the user.
    pub fn display_string(&self) -> (r: String)
        ensures
            r@ == spec_server_err_string(*self),
    {
        match self {
            ServerErr::TimedOut => "Timed Out".to_owned(),
            ServerErr::OtherIo(io) => {
                let s = match io {
                    IoErr::Closed => "connection closed",
                    IoErr::TimedOut => "timed out",
                    IoErr::WouldBlock => "would block",
                    IoErr::UnexpectedCode => "unexpected code received",
                    IoErr::InvalidData => "invalid data",
                    IoErr::Other => "io error",
                };
                s.to_owned()
            },
            ServerErr::IncompatibleRelease(rel) => {
                let mut out = String::new();
                out.append("Incompatible release (server release: ");
                let relstr = rel.display_string();
                out.append(relstr.as_str());
                out.append(") (current release: ");
                let cur = Release::current().display_string();
                out.append(cur.as_str());
                out.append(")");
                out
            },
        }
    }
}

} // verus!
