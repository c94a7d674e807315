use vstd::prelude::*;

use crate::error::{Error, Imbalance};
use crate::regex::{is_allowed_char, only_allowed_chars, allowed_char};
use crate::states::validated_input::ValidatedInput;
use crate::text::chars_of;

verus! {

pub open spec fn paren_delta(c: char) -> int {
    if c == '(' {
        1
    } else if c == ')' {
        -1
    } else {
        0
    }
}

/// Counts parentheses from position `k` on, `depth` being the count so far: fails at
/// the first closing parenthesis that takes the count below zero, or at the end if
/// the count is above zero.
pub open spec fn scan_balance(s: Seq<char>, k: int, depth: int) -> Result<(), Error>
    decreases s.len() - k,
{
    if k < 0 || k >= s.len() {
        if depth > 0 {
            Err(Error::UnbalancedParenthesis(Imbalance::Unclosed(depth as usize)))
        } else {
            Ok(())
        }
    } else if depth + paren_delta(s[k]) < 0 {
        Err(Error::UnbalancedParenthesis(Imbalance::ClosingAt(k as usize)))
    } else {
        scan_balance(s, k + 1, depth + paren_delta(s[k]))
    }
}

/// The verdict on a sanitized text: first its characters, then its parentheses.
pub open spec fn structure_result(s: Seq<char>) -> Result<(), Error> {
    if !only_allowed_chars(s) {
        Err(Error::InvalidCharacter)
    } else {
        scan_balance(s, 0, 0)
    }
}

/// Checks the characters and the parentheses of `s`.
pub fn check_structure(s: &str) -> (r: Result<(), Error>)
    ensures
        r == structure_result(s@),
{
    let v = chars_of(s);
    let mut i: usize = 0;
    while i < v.len()
        invariant
            i <= v.len(),
            v@ == s@,
            forall|k: int| 0 <= k < i ==> #[trigger] allowed_char(v@[k]),
        decreases v.len() - i,
    {
        if !is_allowed_char(v[i]) {
            assert(!allowed_char(s@[i as int]));
            return Err(Error::InvalidCharacter);
        }
        i = i + 1;
    }
    assert(only_allowed_chars(v@));
    let mut opened: usize = 0;
    let mut i: usize = 0;
    while i < v.len()
        invariant
            i <= v.len(),
            opened <= i,
            v@ == s@,
            only_allowed_chars(s@),
            scan_balance(v@, 0, 0) == scan_balance(v@, i as int, opened as int),
        decreases v.len() - i,
    {
        if v[i] == '(' {
            opened = opened + 1;
        } else if v[i] == ')' {
            if opened == 0 {
                return Err(Error::UnbalancedParenthesis(Imbalance::ClosingAt(i)));
            }
            opened = opened - 1;
        }
        i = i + 1;
    }
    if opened > 0 {
        return Err(Error::UnbalancedParenthesis(Imbalance::Unclosed(opened)));
    }
    Ok(())
}

/// Text with blanks removed and signs normalised.
pub struct SanitizedInput(pub String);

impl SanitizedInput {
    pub fn validate(self) -> (r: Result<ValidatedInput, Error>)
        ensures
            match structure_result(self.0@) {
                Ok(_) => r matches Ok(v) && v.0@ == self.0@,
                Err(e) => r == Err::<ValidatedInput, Error>(e),
            },
    {
        match check_structure(self.0.as_str()) {
            Ok(()) => Ok(ValidatedInput(self.0)),
            Err(e) => Err(e),
        }
    }
}

} // verus!
