//! What messages say.

use crate::binning;
use crate::data;
use crate::text;
use crate::tree::estimator;
use vstd::prelude::*;

verus! {

/// What a row of digits stands for, where each place is worth ten of the next.
pub open spec fn number_read(s: Seq<char>) -> int
    decreases s.len(),
{
    if s.len() == 0 {
        0
    } else {
        10 * number_read(s.drop_last()) + (s.last() as int - '0' as int)
    }
}

/// A numeral is made of digits, does not start with a zero unless it is one, and is read as the
/// number it was written for.
pub proof fn law_numerals(n: nat)
    ensures
        text::decimal(n).len() > 0,
        number_read(text::decimal(n)) == n,
        forall|i: int|
            0 <= i < text::decimal(n).len() ==> '0' <= (#[trigger] text::decimal(n)[i]) <= '9',
        n > 0 ==> text::decimal(n)[0] != '0',
    decreases n,
{
    if n < 10 {
        assert(text::decimal(n).drop_last() =~= Seq::<char>::empty());
        assert(number_read(Seq::<char>::empty()) == 0);
    } else {
        law_numerals(n / 10);
        let before = text::decimal(n / 10);
        assert(text::decimal(n).drop_last() =~= before);
        assert(text::decimal(n)[0] == before[0]);
    }
}

/// Different numbers have different numerals.
pub proof fn law_numerals_differ(a: nat, b: nat)
    requires
        a != b,
    ensures
        text::decimal(a) != text::decimal(b),
{
    law_numerals(a);
    law_numerals(b);
}

/// The messages on columns and targets name the column first, then the numbers that disagree.
pub proof fn law_messages(column: nat, found: nat, expected: nat)
    ensures
        exists|c: Seq<char>, f: Seq<char>, e: Seq<char>|
            #![trigger number_read(c), number_read(f), number_read(e)]
            number_read(c) == column && number_read(f) == found && number_read(e) == expected
                && data::ragged_message(column, found, expected) == "column "@ + c
                + " has length "@ + f + " but expected "@ + e,
        exists|f: Seq<char>, e: Seq<char>|
            #![trigger number_read(f), number_read(e)]
            number_read(f) == found && number_read(e) == expected && estimator::mismatch_message(
                found,
                expected,
            ) == "targets length "@ + f + " does not match "@ + e + " samples"@,
        exists|c: Seq<char>, f: Seq<char>|
            #![trigger number_read(c), number_read(f)]
            number_read(c) == column && number_read(f) == found && binning::overfull_message(
                column,
                found,
                true,
            ) == "feature "@ + c + ": "@ + f + " continuous bins exceed fast-mode limit"@,
        exists|c: Seq<char>, f: Seq<char>|
            #![trigger number_read(c), number_read(f)]
            number_read(c) == column && number_read(f) == found && binning::overfull_message(
                column,
                found,
                false,
            ) == "feature "@ + c + ": "@ + f + " categories exceed fast-mode limit"@,
{
    law_numerals(column);
    law_numerals(found);
    law_numerals(expected);
    let c = text::decimal(column);
    let f = text::decimal(found);
    let e = text::decimal(expected);
    assert(number_read(c) == column && number_read(f) == found && number_read(e) == expected);
}

} // verus!
