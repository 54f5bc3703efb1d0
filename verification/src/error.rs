//! The error of building a bitmap from parts that do not agree.
use vstd::prelude::*;
use vstd::string::*;

verus! {

/// A bitmap could not be built.
#[derive(Debug)]
pub struct Error {
    pub kind: ErrorKind,
}

/// Why a bitmap could not be built.
#[derive(Debug)]
pub enum ErrorKind {
    /// The stated number of members is not the number of bits that are set.
    Cardinality { expected: u64, actual: u64 },
}

/// The decimal digit for `d`.
pub open spec fn digit(d: nat) -> char {
    ('0' as nat + d) as char
}

/// `n` in decimal, without leading zeros.
pub open spec fn decimal(n: nat) -> Seq<char>
    decreases n,
{
    if n < 10 {
        seq![digit(n)]
    } else {
        decimal(n / 10).push(digit(n % 10))
    }
}

/// Appends the decimal digit for `d`.
fn append_digit(text: &mut String, d: u64)
    requires
        d < 10,
    ensures
        final(text)@ == old(text)@.push(digit(d as nat)),
{
    let s = match d {
        0 => "0",
        1 => "1",
        2 => "2",
        3 => "3",
        4 => "4",
        5 => "5",
        6 => "6",
        7 => "7",
        8 => "8",
        _ => "9",
    };
    proof {
        reveal_strlit("0");
        reveal_strlit("1");
        reveal_strlit("2");
        reveal_strlit("3");
        reveal_strlit("4");
        reveal_strlit("5");
        reveal_strlit("6");
        reveal_strlit("7");
        reveal_strlit("8");
        reveal_strlit("9");
        assert(s@ =~= seq![digit(d as nat)]);
    }
    text.append(s);
    assert(text@ =~= old(text)@.push(digit(d as nat)));
}

/// Appends `n` in decimal.
fn append_decimal(text: &mut String, n: u64)
    ensures
        final(text)@ == old(text)@ + decimal(n as nat),
    decreases n,
{
    if n >= 10 {
        append_decimal(text, n / 10);
    }
    append_digit(text, n % 10);
    assert(text@ =~= old(text)@ + decimal(n as nat));
}

impl Error {
    /// What went wrong, in words.
    pub fn to_string(&self) -> (r: String)
        ensures
            match self.kind {
                ErrorKind::Cardinality { expected, actual } => r@ == "Expected cardinality was "@
                    + decimal(expected as nat) + " but was "@ + decimal(actual as nat),
            },
    {
        match self.kind {
            ErrorKind::Cardinality { expected, actual } => {
                let mut text = String::from_str("Expected cardinality was ");
                append_decimal(&mut text, expected);
                text.append(" but was ");
                append_decimal(&mut text, actual);
                text
            },
        }
    }
}

} // verus!
