//! Laws of the text of errors.
use vstd::prelude::*;

use crate::error;
use crate::error::{Error, ErrorKind};

verus! {

/// The number that a string of decimal digits names.
pub open spec fn value_of(text: Seq<char>) -> int
    decreases text.len(),
{
    if text.len() == 0 {
        0
    } else {
        10 * value_of(text.drop_last()) + (text.last() as int - '0' as int)
    }
}

/// A number in decimal consists of digits only, at least one and without a needless zero in front,
/// and names the number.
pub proof fn law_decimal_reads_back(n: nat)
    ensures
        value_of(error::decimal(n)) == n,
        error::decimal(n).len() > 0,
        forall|i: int|
            0 <= i < error::decimal(n).len() ==> '0' <= #[trigger] error::decimal(n)[i] <= '9',
        error::decimal(n).len() > 1 ==> error::decimal(n)[0] != '0',
    decreases n,
{
    let text = error::decimal(n);
    if n < 10 {
        assert(text.drop_last() =~= Seq::empty());
        assert(value_of(text.drop_last()) == 0);
    } else {
        law_decimal_reads_back(n / 10);
        let front = error::decimal(n / 10);
        assert(text.drop_last() =~= front);
        if front.len() == 1 {
            assert(front.drop_last() =~= Seq::empty());
            assert(value_of(front.drop_last()) == 0);
        }
        assert(text[0] == front[0]);
    }
}

/// The text of an error names the number that was stated and then the number that was found.
pub proof fn law_error_text(e: Error, r: String) -> (parts: (Seq<char>, Seq<char>))
    requires
        call_ensures(Error::to_string, (&e,), r),
    ensures
        r@ == "Expected cardinality was "@ + parts.0 + " but was "@ + parts.1,
        e.kind matches ErrorKind::Cardinality { expected, actual } && value_of(parts.0) == expected
            && value_of(parts.1) == actual,
{
    match e.kind {
        ErrorKind::Cardinality { expected, actual } => {
            law_decimal_reads_back(expected as nat);
            law_decimal_reads_back(actual as nat);
            (error::decimal(expected as nat), error::decimal(actual as nat))
        },
    }
}

} // verus!
