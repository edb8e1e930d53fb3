//! Decoding of one ASCII fixed-point value field into a scaled-by-ten
//! integer.
use crate::model::{is_ascii_digit, valid_value, value_of};
use vstd::prelude::*;
use vstd::slice::slice_index_get;

verus! {

/// Whether `b` is an ASCII decimal digit.
pub fn digit(b: u8) -> (r: bool)
    ensures
        r == is_ascii_digit(b),
{
    48 <= b && b <= 57
}

/// Decode the bytes of one value field: exactly one fractional digit, one
/// or two integer digits, an optional leading minus. Any other shape is
/// refused.
pub fn parse_temperature(input: &[u8]) -> (r: Option<i64>)
    ensures
        match r {
            Some(v) => valid_value(input@) && v as int == value_of(input@) && -999 <= v <= 999,
            None => !valid_value(input@),
        },
{
    let n = input.len();
    if n == 3 {
        let b0 = *slice_index_get(input, 0);
        let b1 = *slice_index_get(input, 1);
        let b2 = *slice_index_get(input, 2);
        if digit(b0) && b1 == 46 && digit(b2) {
            Some(10 * (b0 - 48) as i64 + (b2 - 48) as i64)
        } else {
            None
        }
    } else if n == 4 {
        let b0 = *slice_index_get(input, 0);
        let b1 = *slice_index_get(input, 1);
        let b2 = *slice_index_get(input, 2);
        let b3 = *slice_index_get(input, 3);
        if b0 == 45 {
            if digit(b1) && b2 == 46 && digit(b3) {
                Some(-(10 * (b1 - 48) as i64 + (b3 - 48) as i64))
            } else {
                None
            }
        } else {
            if digit(b0) && digit(b1) && b2 == 46 && digit(b3) {
                Some(100 * (b0 - 48) as i64 + 10 * (b1 - 48) as i64 + (b3 - 48) as i64)
            } else {
                None
            }
        }
    } else if n == 5 {
        let b0 = *slice_index_get(input, 0);
        let b1 = *slice_index_get(input, 1);
        let b2 = *slice_index_get(input, 2);
        let b3 = *slice_index_get(input, 3);
        let b4 = *slice_index_get(input, 4);
        if b0 == 45 && digit(b1) && digit(b2) && b3 == 46 && digit(b4) {
            Some(-(100 * (b1 - 48) as i64 + 10 * (b2 - 48) as i64 + (b4 - 48) as i64))
        } else {
            None
        }
    } else {
        None
    }
}

} // verus!
