use vstd::prelude::*;

verus! {

pub open spec fn is_blank(c: char) -> bool {
    c == ' ' || c == '\t' || c == '\n'
}

/// `s` without its spaces, tabs and newlines.
pub open spec fn without_blanks(s: Seq<char>) -> Seq<char>
    decreases s.len(),
{
    if s.len() == 0 {
        s
    } else if is_blank(s[0]) {
        without_blanks(s.skip(1))
    } else {
        seq![s[0]] + without_blanks(s.skip(1))
    }
}

/// `s` with each occurrence of the pair `a b` replaced by `rep`, in one left-to-right
/// pass over non-overlapping occurrences.
pub open spec fn replace_pair(s: Seq<char>, a: char, b: char, rep: Seq<char>) -> Seq<char>
    decreases s.len(),
{
    if s.len() == 0 {
        s
    } else if s.len() >= 2 && s[0] == a && s[1] == b {
        rep + replace_pair(s.skip(2), a, b, rep)
    } else {
        seq![s[0]] + replace_pair(s.skip(1), a, b, rep)
    }
}

/// The characters of `s`, in order.
pub fn chars_of(s: &str) -> (r: Vec<char>)
    ensures
        r@ == s@,
{
    let mut r: Vec<char> = Vec::new();
    for c in it: s.chars()
        invariant
            r@ == it.seq().take(it.index() as int),
    {
        r.push(c);
    }
    r
}

/// Relies on `FromIterator<&char>` for `String`: the string holds the characters in order.
#[verifier::external_body]
pub(crate) fn string_of(v: &Vec<char>) -> (r: String)
    ensures
        r@ == v@,
{
    v.iter().collect()
}

/// The characters `v[start..end]`.
pub fn segment(v: &Vec<char>, start: usize, end: usize) -> (r: Vec<char>)
    requires
        start <= end <= v.len(),
    ensures
        r@ == v@.subrange(start as int, end as int),
{
    let mut r: Vec<char> = Vec::new();
    let mut i: usize = start;
    while i < end
        invariant
            start <= i <= end <= v.len(),
            r@ == v@.subrange(start as int, i as int),
        decreases end - i,
    {
        r.push(v[i]);
        i = i + 1;
        assert(r@ =~= v@.subrange(start as int, i as int));
    }
    r
}

pub fn remove_blanks(v: &Vec<char>) -> (r: Vec<char>)
    ensures
        r@ == without_blanks(v@),
{
    let mut r: Vec<char> = Vec::new();
    let mut i: usize = 0;
    assert(v@.skip(0) =~= v@);
    while i < v.len()
        invariant
            i <= v.len(),
            r@ + without_blanks(v@.skip(i as int)) == without_blanks(v@),
        decreases v.len() - i,
    {
        let c = v[i];
        let ghost rest = v@.skip(i as int);
        assert(rest.skip(1) =~= v@.skip(i + 1));
        if !(c == ' ' || c == '\t' || c == '\n') {
            assert(r@.push(c) + without_blanks(rest.skip(1)) =~= r@ + (seq![c] + without_blanks(
                rest.skip(1),
            )));
            r.push(c);
        }
        i = i + 1;
    }
    assert(v@.skip(i as int) =~= Seq::<char>::empty());
    assert(r@ + Seq::<char>::empty() =~= r@);
    r
}

pub fn replace_pairs(v: &Vec<char>, a: char, b: char, rep: &Vec<char>) -> (r: Vec<char>)
    ensures
        r@ == replace_pair(v@, a, b, rep@),
{
    let mut r: Vec<char> = Vec::new();
    let mut i: usize = 0;
    assert(v@.skip(0) =~= v@);
    while i < v.len()
        invariant
            i <= v.len(),
            r@ + replace_pair(v@.skip(i as int), a, b, rep@) == replace_pair(v@, a, b, rep@),
        decreases v.len() - i,
    {
        let ghost rest = v@.skip(i as int);
        if v.len() - i >= 2 && v[i] == a && v[i + 1] == b {
            assert(rest.skip(2) =~= v@.skip(i + 2));
            let ghost tail = replace_pair(rest.skip(2), a, b, rep@);
            let ghost before = r@;
            let mut j: usize = 0;
            while j < rep.len()
                invariant
                    j <= rep.len(),
                    r@ == before + rep@.take(j as int),
                decreases rep.len() - j,
            {
                r.push(rep[j]);
                j = j + 1;
                assert(r@ =~= before + rep@.take(j as int));
            }
            assert(rep@.take(j as int) =~= rep@);
            assert(before + (rep@ + tail) =~= r@ + tail);
            i = i + 2;
        } else {
            let c = v[i];
            assert(rest.skip(1) =~= v@.skip(i + 1));
            let ghost tail = replace_pair(rest.skip(1), a, b, rep@);
            assert(r@ + (seq![c] + tail) =~= r@.push(c) + tail);
            r.push(c);
            i = i + 1;
        }
    }
    assert(v@.skip(i as int) =~= Seq::<char>::empty());
    assert(r@ + Seq::<char>::empty() =~= r@);
    r
}

} // verus!
