use vstd::prelude::*;

use crate::states::sanitized_input::SanitizedInput;
use crate::text::{chars_of, remove_blanks, replace_pair, replace_pairs, string_of, without_blanks};

verus! {

/// The text after sanitizing: blanks removed, then each `()` removed, then each `+-`
/// written `-`, then each `--` written `+`; every step is a single pass.
pub open spec fn sanitized(s: Seq<char>) -> Seq<char> {
    replace_pair(
        replace_pair(
            replace_pair(without_blanks(s), '(', ')', seq![]),
            '+',
            '-',
            seq!['-'],
        ),
        '-',
        '-',
        seq!['+'],
    )
}

/// Text as the user typed it.
pub struct Input(pub String);

impl Input {
    pub fn sanitize(self) -> (r: SanitizedInput)
        ensures
            r.0@ == sanitized(self.0@),
    {
        let v = chars_of(self.0.as_str());
        let v = remove_blanks(&v);
        let nothing: Vec<char> = Vec::new();
        let v = replace_pairs(&v, '(', ')', &nothing);
        let minus: Vec<char> = vec!['-'];
        let v = replace_pairs(&v, '+', '-', &minus);
        let plus: Vec<char> = vec!['+'];
        let v = replace_pairs(&v, '-', '-', &plus);
        assert(nothing@ =~= seq![]);
        assert(minus@ =~= seq!['-']);
        assert(plus@ =~= seq!['+']);
        SanitizedInput(string_of(&v))
    }
}

} // verus!
