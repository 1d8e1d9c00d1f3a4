//! Comparing the names of two entries under an ordering.

use vstd::prelude::*;
use std::cmp::Ordering;
use crate::keys::{
    bytes_less, case_folded, code_points, key_asymmetric, key_irreflexive, key_less, key_total,
    lex_less, sort_key,
};
use crate::params::Sort;

verus! {

/// The text of a name that may be absent.
pub open spec fn text_of(name: Option<&str>) -> Option<Seq<char>> {
    match name {
        Some(text) => Some(text@),
        None => None,
    }
}

/// The text of an owned name that may be absent.
pub open spec fn name_text(name: Option<String>) -> Option<Seq<char>> {
    match name {
        Some(text) => Some(text@),
        None => None,
    }
}

/// Calls `unicase`: `UniCase::new(a).cmp(&UniCase::new(b))`.
///
/// Believed, not proved: `unicase` compares the two texts by their
/// case-folded forms, character by character in code point order, a proper
/// prefix first. For two ASCII texts it compares lower-cased bytes, which is
/// the same thing. `case_folded` stands for the folded form, whose table
/// lies in `unicase`.
#[verifier::external_body]
fn unicase_order(a: &str, b: &str) -> (order: Ordering)
    ensures
        (order is Less) == lex_less(code_points(case_folded(a@)), code_points(case_folded(b@))),
        (order is Greater) == lex_less(code_points(case_folded(b@)), code_points(case_folded(a@))),
{
    unicase::UniCase::new(a).cmp(&unicase::UniCase::new(b))
}

/// Compares two names without regard to case. An absent name comes before
/// every name that is present.
pub fn unicase_cmp(a: Option<&str>, b: Option<&str>) -> (order: Ordering)
    ensures
        (order is Less) == key_less(
            sort_key(Sort::IgnoreCase, text_of(a)),
            sort_key(Sort::IgnoreCase, text_of(b)),
        ),
        (order is Greater) == key_less(
            sort_key(Sort::IgnoreCase, text_of(b)),
            sort_key(Sort::IgnoreCase, text_of(a)),
        ),
        (order is Equal) == (sort_key(Sort::IgnoreCase, text_of(a)) == sort_key(
            Sort::IgnoreCase,
            text_of(b),
        )),
{
    proof {
        let x = sort_key(Sort::IgnoreCase, text_of(a));
        let y = sort_key(Sort::IgnoreCase, text_of(b));
        key_total(x, y);
        key_irreflexive(x);
        if key_less(x, y) {
            key_asymmetric(x, y);
        }
    }
    match (a, b) {
        (None, None) => Ordering::Equal,
        (None, Some(_)) => Ordering::Less,
        (Some(_), None) => Ordering::Greater,
        (Some(x), Some(y)) => unicase_order(x, y),
    }
}

/// Whether the name `a` comes strictly before the name `b` under `sort`.
pub fn name_less(sort: Sort, a: &Option<String>, b: &Option<String>) -> (less: bool)
    ensures
        less == key_less(sort_key(sort, name_text(*a)), sort_key(sort, name_text(*b))),
{
    match sort {
        Sort::Normal => match (a, b) {
            (None, Some(_)) => true,
            (Some(x), Some(y)) => bytes_less(x.as_str().as_bytes(), y.as_str().as_bytes()),
            _ => false,
        },
        Sort::IgnoreCase => {
            let x: Option<&str> = match a {
                Some(text) => Some(text.as_str()),
                None => None,
            };
            let y: Option<&str> = match b {
                Some(text) => Some(text.as_str()),
                None => None,
            };
            match unicase_cmp(x, y) {
                Ordering::Less => true,
                _ => false,
            }
        },
    }
}

} // verus!
