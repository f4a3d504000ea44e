use vstd::prelude::*;
use vstd::string::*;
use crate::error::Error;
use crate::text::{debug_quoted, find_char, first_index, quote, trim, trimmed};

verus! {

/// An amount of a part.
pub struct Ingredient<A> {
    pub amount: A,
    pub part: String,
}

/// The amount and the part name that an ingredient description holds: once
/// the description is trimmed, the text before its first space, and the rest
/// trimmed.  `None` when the trimmed description has no space.
pub open spec fn ingredient_fields(s: Seq<char>) -> Option<(Seq<char>, Seq<char>)> {
    let t = trimmed(s);
    match first_index(t, ' ') {
        Some(i) => Some((t.take(i), trimmed(t.skip(i)))),
        None => None,
    }
}

/// The message of the error for a description without a space.
pub open spec fn malformed_message() -> Seq<char> {
    "malformed ingredient"@
}

/// The message of the error for an amount that is not a number, where
/// `reason` is what the number parser reported.
pub open spec fn invalid_number_message(amount: Seq<char>, reason: Seq<char>) -> Seq<char> {
    "invalid number "@ + debug_quoted(amount) + ": "@ + reason
}

/// Splits an ingredient description such as `30 Iron Ore` into the amount,
/// still as text, and the name of the part.
pub fn split_ingredient(s: &str) -> (r: Result<(String, String), Error>)
    ensures
        match ingredient_fields(s@) {
            Some(f) => r matches Ok(p) && p.0@ == f.0 && p.1@ == f.1,
            None => r matches Err(e) && e.message() == malformed_message(),
        },
{
    let t = trim(s);
    match find_char(t, ' ') {
        Some(i) => {
            let n = t.unicode_len();
            let amount = String::from_str(t.substring_char(0, i));
            let rest = t.substring_char(i, n);
            assert(rest@ == t@.skip(i as int));
            assert(t@.subrange(0, i as int) == t@.take(i as int));
            let part = String::from_str(trim(rest));
            Ok((amount, part))
        },
        None => Err(Error::invalid_argument(String::from_str("malformed ingredient"))),
    }
}

impl<A> Ingredient<A> {
    /// Reads a description such as `30 Iron Ore`: the amount, read from its
    /// text by `read_amount`, and the name of the part.  When `read_amount`
    /// refuses the text with a reason, the error says that the number is
    /// invalid and gives the reason.
    pub fn parse<F: Fn(&str) -> Result<A, String>>(s: &str, read_amount: F) -> (r: Result<Ingredient<A>, Error>)
        requires
            forall|t: &str| read_amount.requires((t,)),
        ensures
            match ingredient_fields(s@) {
                Some(f) => match r {
                    Ok(ing) => ing.part@ == f.1
                        && exists|t: &str| t@ == f.0 && read_amount.ensures((t,), Ok::<A, String>(ing.amount)),
                    Err(e) => exists|t: &str, why: String| t@ == f.0
                        && read_amount.ensures((t,), Err::<A, String>(why))
                        && e.message() == invalid_number_message(f.0, why@),
                },
                None => r matches Err(e) && e.message() == malformed_message(),
            },
    {
        match split_ingredient(s) {
            Ok((text, part)) => {
                let t = text.as_str();
                match read_amount(t) {
                    Ok(amount) => Ok(Ingredient { amount, part }),
                    Err(why) => {
                        let e = invalid_number(t, why.as_str());
                        assert(t@ == text@ && read_amount.ensures((t,), Err::<A, String>(why)));
                        Err(e)
                    },
                }
            },
            Err(e) => Err(e),
        }
    }
}

/// The error for an amount that is not a number; `reason` is what the number
/// parser reported.
pub fn invalid_number(amount: &str, reason: &str) -> (e: Error)
    ensures
        e.message() == invalid_number_message(amount@, reason@),
{
    let q = quote(amount);
    Error::invalid_argument(String::from_str("invalid number ").concat(q.as_str()).concat(": ").concat(reason))
}

} // verus!
