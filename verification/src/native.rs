//! What Ruby programs can call: codecs of strings, and how the arguments of
//! such calls are checked.
pub mod base64;
pub mod base64_laws;
pub mod html;
pub mod url;

use vstd::prelude::*;
use crate::number;
use crate::number::{decimal_of, signed_decimal_of};
use crate::ruby::Qfalse;

verus! {

/// How many arguments a method takes.
#[derive(Clone, Copy)]
pub enum Arity {
    Exactly(u32),
    Between(u32, u32),
    AtLeast(u32),
}

impl Arity {
    /// Whether a method that takes so many arguments can be called with `argc`.
    pub open spec fn allows(self, argc: int) -> bool {
        match self {
            Arity::Exactly(n) => argc == n,
            Arity::Between(a, b) => a <= argc <= b,
            Arity::AtLeast(n) => n <= argc,
        }
    }

    /// How the number of arguments is written.
    pub open spec fn shown(self) -> Seq<char> {
        match self {
            Arity::Exactly(n) => number::decimal(n as nat),
            Arity::Between(a, b) => number::decimal(a as nat) + ".."@ + number::decimal(b as nat),
            Arity::AtLeast(n) => number::decimal(n as nat) + "+"@,
        }
    }
}

/// What is said of a call with a wrong number of arguments.
pub fn arity_error(argc: i32, arity: Arity) -> (r: Option<String>)
    ensures
        if arity.allows(argc as int) {
            r is None
        } else {
            r matches Some(m) && m@ == "wrong number of arguments (given "@
                + number::signed_decimal(argc as int) + ", expected "@ + arity.shown() + ")"@
        },
{
    let n: i64 = argc as i64;
    let (fits, shown) = match arity {
        Arity::Exactly(k) => (n == k as i64, decimal_of(k as u64)),
        Arity::Between(a, b) => {
            let mut s = decimal_of(a as u64);
            s.append("..");
            s.append(decimal_of(b as u64).as_str());
            (a as i64 <= n && n <= b as i64, s)
        },
        Arity::AtLeast(k) => {
            let mut s = decimal_of(k as u64);
            s.append("+");
            (k as i64 <= n, s)
        },
    };
    if fits {
        return None;
    }
    let mut m = "wrong number of arguments (given ".to_string();
    m.append(signed_decimal_of(n).as_str());
    m.append(", expected ");
    m.append(shown.as_str());
    m.append(")");
    Some(m)
}

/// Whether an encoding is filled up, where it was said as a value of Ruby:
/// everything but `false` is true, `nil` too.
pub fn keeps_padding(given: Option<usize>) -> (r: bool)
    ensures
        r == match given {
            Some(v) => v != Qfalse,
            None => true,
        },
{
    match given {
        Some(v) => v != Qfalse,
        None => true,
    }
}

/// A method is called with exactly as many arguments as it takes.
pub proof fn law_arity(n: u32, m: u32, argc: int)
    ensures
        Arity::Exactly(n).allows(argc) <==> argc == n,
        Arity::Between(n, m).allows(argc) <==> n <= argc && argc <= m,
        Arity::AtLeast(n).allows(argc) <==> argc >= n,
        Arity::Exactly(n).shown() == number::decimal(n as nat),
        Arity::Between(n, m).shown() == number::decimal(n as nat) + seq!['.', '.'] + number::decimal(
            m as nat,
        ),
        Arity::AtLeast(n).shown() == number::decimal(n as nat) + seq!['+'],
{
    reveal_strlit("..");
    reveal_strlit("+");
    assert(".."@ =~= seq!['.', '.']);
    assert("+"@ =~= seq!['+']);
}

} // verus!
