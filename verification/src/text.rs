//! Text of numbers and characters, and the quoted form of text.

use vstd::prelude::*;
use crate::types::Term;
use crate::model::{TermV, term_v};

verus! {

pub open spec fn digit(d: nat) -> char {
    seq!['0', '1', '2', '3', '4', '5', '6', '7', '8', '9'][d as int]
}

/// A natural number in decimal, without leading zeros.
pub open spec fn nat_text(n: nat) -> Seq<char>
    decreases n,
{
    if n < 10 {
        seq![digit(n)]
    } else {
        nat_text(n / 10) + seq![digit(n % 10)]
    }
}

/// An integer in decimal, with a minus sign when negative.
pub open spec fn int_text(n: int) -> Seq<char> {
    if n < 0 {
        seq!['-'] + nat_text((-n) as nat)
    } else {
        nat_text(n as nat)
    }
}

/// What `{:?}` makes of a string: the text in double quotes, with quotes,
/// backslashes and unprintable characters escaped.
pub uninterp spec fn str_debug(s: Seq<char>) -> Seq<char>;

/// What `{:?}` makes of a term.
pub uninterp spec fn term_debug(t: TermV) -> Seq<char>;

/// The text of one decimal digit.
fn digit_text(d: u64) -> (s: String)
    requires
        d < 10,
    ensures
        s@ == seq![digit(d as nat)],
{
    match d {
            0 => {
                proof {
                    reveal_strlit("0");
                }
                "0".to_owned()
            },
            1 => {
                proof {
                    reveal_strlit("1");
                }
                "1".to_owned()
            },
            2 => {
                proof {
                    reveal_strlit("2");
                }
                "2".to_owned()
            },
            3 => {
                proof {
                    reveal_strlit("3");
                }
                "3".to_owned()
            },
            4 => {
                proof {
                    reveal_strlit("4");
                }
                "4".to_owned()
            },
            5 => {
                proof {
                    reveal_strlit("5");
                }
                "5".to_owned()
            },
            6 => {
                proof {
                    reveal_strlit("6");
                }
                "6".to_owned()
            },
            7 => {
                proof {
                    reveal_strlit("7");
                }
                "7".to_owned()
            },
            8 => {
                proof {
                    reveal_strlit("8");
                }
                "8".to_owned()
            },
            _ => {
                proof {
                    reveal_strlit("9");
                }
                "9".to_owned()
            },
        }
}

/// A natural number in decimal, as `u64::to_string` writes it.
pub(crate) fn u64_text(n: u64) -> (s: String)
    ensures
        s@ == nat_text(n as nat),
    decreases n,
{
    if n < 10 {
        digit_text(n)
    } else {
        let mut s = u64_text(n / 10);
        let d = digit_text(n % 10);
        s.append(d.as_str());
        s
    }
}

/// As `usize::to_string` writes it.
pub(crate) fn usize_text(n: usize) -> (s: String)
    ensures
        s@ == nat_text(n as nat),
{
    u64_text(n as u64)
}

/// An integer in decimal, as `i64::to_string` writes it.
pub(crate) fn i64_text(n: i64) -> (s: String)
    ensures
        s@ == int_text(n as int),
{
    if n < 0 {
        let magnitude: u64 = if n == i64::MIN {
            9223372036854775808u64
        } else {
            (-n) as u64
        };
        let mut s = "-".to_owned();
        proof {
            reveal_strlit("-");
        }
        let m = u64_text(magnitude);
        s.append(m.as_str());
        s
    } else {
        u64_text(n as u64)
    }
}

/// `char::to_string`: the one character.
#[verifier::external_body]
pub(crate) fn char_text(c: char) -> (s: String)
    ensures
        s@ == seq![c],
{
    c.to_string()
}

/// `format!("{:?}", s)` on a string: named by `str_debug`.
#[verifier::external_body]
pub(crate) fn debug_str(s: &str) -> (r: String)
    ensures
        r@ == str_debug(s@),
{
    format!("{:?}", s)
}

/// `format!("{:?}", t)` on a term: named by `term_debug`.
#[verifier::external_body]
pub(crate) fn debug_term(t: &Term) -> (r: String)
    ensures
        r@ == term_debug(term_v(*t)),
{
    format!("{:?}", t)
}

} // verus!
