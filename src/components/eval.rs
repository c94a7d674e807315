use vstd::prelude::*;

use crate::error::Error;
use crate::lexer::{lexemes, split_lexemes};
use crate::states::sanitized_input::{check_structure, structure_result};
use crate::states::validated_input::{
    classifies,
    classify_lexeme,
    denotes,
    denotes_all,
    first_invalid_at,
};
use crate::token::Token;
use crate::text::{
    chars_of,
    remove_blanks,
    replace_pair,
    replace_pairs,
    string_of,
    without_blanks,
};

verus! {

/// The text without blanks, then without each `()`; signs are left as they are.
pub fn sanitize(input: &String) -> (r: String)
    ensures
        r@ == replace_pair(without_blanks(input@), '(', ')', seq![]),
{
    let v = chars_of(input.as_str());
    let v = remove_blanks(&v);
    let nothing: Vec<char> = Vec::new();
    let v = replace_pairs(&v, '(', ')', &nothing);
    assert(nothing@ =~= seq![]);
    string_of(&v)
}

/// Checks the characters and the parentheses of a sanitized text.
pub fn validate(input: &String) -> (r: Result<(), Error>)
    ensures
        r == structure_result(input@),
{
    check_structure(input.as_str())
}

/// Cuts a sanitized text into lexemes; a minus sign always stands alone.
pub fn pre_tokenize(input: &String) -> (r: Vec<String>)
    ensures
        r.len() == lexemes(input@, false).len(),
        forall|k: int| 0 <= k < r.len() ==> #[trigger] r@[k]@ == lexemes(input@, false)[k],
{
    let v = chars_of(input.as_str());
    let ls = split_lexemes(&v, false);
    let mut r: Vec<String> = Vec::new();
    let mut k: usize = 0;
    while k < ls.len()
        invariant
            k <= ls.len(),
            r.len() == k,
            forall|j: int| 0 <= j < k ==> #[trigger] r@[j]@ == ls@[j]@,
        decreases ls.len() - k,
    {
        r.push(string_of(&ls[k]));
        k = k + 1;
    }
    r
}

/// The tokens that the lexemes name; numbers are unsigned.
pub fn tokenize(pre_tokens: &Vec<String>) -> (r: Result<Vec<Token>, Error>)
    ensures
        ({
            let ls = pre_tokens@.map_values(|s: String| s@);
            match r {
                Ok(ts) => denotes_all(ts@, ls, false),
                Err(e) => exists|k: int|
                    first_invalid_at(ls, k, false) && (e matches Error::InvalidToken(x) && x@
                        == ls[k]),
            }
        }),
{
    let ghost ls = pre_tokens@.map_values(|s: String| s@);
    let mut tokens: Vec<Token> = Vec::new();
    let mut k: usize = 0;
    while k < pre_tokens.len()
        invariant
            k <= pre_tokens.len(),
            ls == pre_tokens@.map_values(|s: String| s@),
            tokens.len() == k,
            forall|j: int| 0 <= j < k ==> #[trigger] denotes(tokens@[j], ls[j], false),
        decreases pre_tokens.len() - k,
    {
        let v = chars_of(pre_tokens[k].as_str());
        assert(v@ == ls[k as int]);
        match classify_lexeme(&v, false) {
            Ok(t) => tokens.push(t),
            Err(e) => {
                proof {
                    assert forall|j: int| 0 <= j < k implies #[trigger] classifies(
                        ls[j],
                        false,
                    ) by {
                        assert(denotes(tokens@[j], ls[j], false));
                    }
                    assert(first_invalid_at(ls, k as int, false));
                }
                return Err(e);
            },
        }
        k = k + 1;
    }
    Ok(tokens)
}

} // verus!
