//! Board positions and small helpers.

use vstd::prelude::*;
use vstd::string::{axiom_spec_iter, next_postcondition, StringExecFns};

verus! {

/// What `char::to_uppercase` yields for `c`: one to three characters given by
/// the Unicode tables.
pub uninterp spec fn upper_of(c: char) -> Seq<char>;

/// Relies on `char::to_uppercase`, collected into a string: the result
/// depends on `c` alone.
#[verifier::external_body]
fn to_upper(c: char) -> (r: String)
    ensures
        r@ == upper_of(c),
{
    c.to_uppercase().collect::<String>()
}

/// Relies on `str::strip_prefix` with a `char` pattern: the rest of `s` after
/// a leading `c`, or `None` when `s` does not start with `c`.
#[verifier::external_body]
fn strip_char<'a>(s: &'a str, c: char) -> (r: Option<&'a str>)
    ensures
        r is Some <==> (s@.len() > 0 && s@[0] == c),
        r is Some ==> r->0@ == s@.skip(1),
{
    s.strip_prefix(c)
}

/// `s` with its first character in upper case.
pub fn capitalize_first(s: &str) -> (r: String)
    ensures
        s@.len() == 0 ==> r@.len() == 0,
        s@.len() > 0 ==> r@ == upper_of(s@[0]) + s@.skip(1),
{
    broadcast use axiom_spec_iter, next_postcondition;

    let mut c = s.chars();
    match c.next() {
        None => String::new(),
        Some(f) => {
            let upper = to_upper(f);
            match strip_char(s, f) {
                Some(rest) => upper.concat(rest),
                None => upper,
            }
        },
    }
}

/// The value of a string of decimal digits.
pub open spec fn digits_value(d: Seq<char>) -> int
    decreases d.len(),
{
    if d.len() == 0 {
        0
    } else {
        digits_value(d.drop_last()) * 10 + (d.last() as u32 - '0' as u32)
    }
}

/// The integer that `s` writes as an optional sign followed by one or more
/// decimal digits, and nothing else.
pub open spec fn decimal_of(s: Seq<char>) -> Option<int> {
    let signed = s.len() > 0 && (s[0] == '-' || s[0] == '+');
    let d = if signed { s.skip(1) } else { s };
    if d.len() > 0 && forall|i: int| 0 <= i < d.len() ==> '0' <= #[trigger] d[i] <= '9' {
        Some(if signed && s[0] == '-' { -digits_value(d) } else { digits_value(d) })
    } else {
        None
    }
}

/// Relies on `str::parse::<i64>`: an optional `+` or `-` followed by decimal
/// digits, whose value fits in an `i64`; anything else is an error.
#[verifier::external_body]
fn parse_i64(s: &str) -> (r: Option<i64>)
    ensures
        r == match decimal_of(s@) {
            Some(v) => if i64::MIN <= v <= i64::MAX { Some(v as i64) } else { None },
            None => None,
        },
{
    s.parse::<i64>().ok()
}

/// The number that `s` writes if it lies within `minimum..=maximum`, and
/// `default` otherwise.
pub fn get_num(s: &str, minimum: i64, maximum: i64, default: i64) -> (r: i64)
    ensures
        r == match decimal_of(s@) {
            Some(v) => if minimum <= v <= maximum { v as i64 } else { default },
            None => default,
        },
{
    match parse_i64(s) {
        Some(n) => {
            if minimum <= n && n <= maximum {
                n
            } else {
                default
            }
        },
        None => default,
    }
}

/// A cell of the board, given as (column, row).
#[derive(Clone, Copy, Debug, PartialEq, Eq, Structural, Hash, PartialOrd, Ord)]
pub struct Pos {
    pub x: i32,
    pub y: i32,
}

impl Pos {
    /// The coordinate value that marks a position as invalid.
    pub const INVALID: i32 = -1;

    pub fn new(x: i32, y: i32) -> (r: Self)
        ensures
            r.x == x,
            r.y == y,
    {
        Self { x, y }
    }

    /// A position is valid when neither coordinate is the invalid marker.
    pub open spec fn valid(&self) -> bool {
        self.x != Pos::INVALID && self.y != Pos::INVALID
    }

    pub fn is_valid(&self) -> (r: bool)
        ensures
            r == self.valid(),
    {
        self.x != Pos::INVALID && self.y != Pos::INVALID
    }
}

impl Default for Pos {
    /// The invalid position.
    fn default() -> (r: Self)
        ensures
            r.x == Pos::INVALID,
            r.y == Pos::INVALID,
            !r.valid(),
    {
        Self { x: Pos::INVALID, y: Pos::INVALID }
    }
}

} // verus!
