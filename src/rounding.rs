//! Reporting a measured value together with its uncertainty.
use vstd::prelude::*;

use crate::digits::{
    last_significant_index, place_of_index, render, rounded_to_place, Digits, DigitsView,
};

verus! {

/// `text`, followed by a space and the unit symbol when there is one.
pub open spec fn with_unit(text: Seq<char>, unit: Option<&str>) -> Seq<char> {
    match unit {
        Some(symbol) => text + seq![' '] + symbol@,
        None => text,
    }
}

/// The place that an uncertainty is reported to: that of its last significant digit when it
/// is written to one or two significant figures.
pub open spec fn uncertainty_place(uncertainty: DigitsView) -> int {
    place_of_index(uncertainty.dot, last_significant_index(uncertainty.digits) as int)
}

/// The report `"<value> ± <uncertainty>"`, each rounded to the place of the uncertainty, each
/// followed by the unit symbol when there is one.
pub open spec fn report(value: DigitsView, uncertainty: DigitsView, unit: Option<&str>) -> Seq<
    char,
> {
    let place = uncertainty_place(uncertainty);
    with_unit(render(rounded_to_place(value, place)), unit) + seq![' ', '±', ' '] + with_unit(
        render(rounded_to_place(uncertainty, place)),
        unit,
    )
}

/// Appends the unit symbol, after a space, when there is one.
fn append_unit(s: &mut String, unit: Option<&str>)
    ensures
        final(s)@ == with_unit(old(s)@, unit),
{
    if let Some(symbol) = unit {
        s.append(" ");
        proof {
            reveal_strlit(" ");
        }
        s.append(symbol);
    }
}

/// Rounds the uncertainty to one or two significant figures and the value to the same place,
/// and writes them as `"<value> ± <uncertainty>"`.
///
/// The uncertainty keeps its first non-zero digit, and the digit after it too when that first
/// digit is a one or a two. The value is rounded to the same place (hundreds, ones, tenths,
/// ...), so that it claims no more precision than the uncertainty supports; a value with fewer
/// digits than that place is not padded. When `unit` holds a symbol, it follows both numbers
/// after a space.
pub fn round_with_uncertainty(value: &Digits, uncertainty: &Digits, unit: Option<&str>) -> (r:
    String)
    requires
        value@.wf(),
        uncertainty@.wf(),
        value@.digits.len() < isize::MAX,
        uncertainty@.digits.len() < isize::MAX,
    ensures
        r@ == report(value@, uncertainty@, unit),
{
    let place = uncertainty.last_significant_place();
    let uncertainty = uncertainty.round_to_place(place);
    let value = value.round_to_place(place);
    let mut s = value.to_string();
    append_unit(&mut s, unit);
    s.append(" ± ");
    proof {
        reveal_strlit(" ± ");
    }
    let mut rounded = uncertainty.to_string();
    append_unit(&mut rounded, unit);
    s.append(rounded.as_str());
    s
}

} // verus!
