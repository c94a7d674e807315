use vstd::prelude::*;

use crate::states::tokens::{
    apply_at,
    defers,
    eligible,
    evaluation,
    next_operation,
    next_operation_from,
    operands_at,
    reduced,
    last_redundant_below,
    lemma_last_redundant_below,
    redundant_at,
    stripped,
    without_pair,
};
use crate::outcome;
use crate::states::validated_input::{adjacency, first_adjacency_from, token_check};
use crate::token::{Expr, Op, Token};

verus! {

proof fn lemma_last_redundant_above(s: Seq<Token>, n: int, p: int)
    requires
        p < n,
        redundant_at(s, p),
    ensures
        last_redundant_below(s, n) matches Some(i) && p <= i,
    decreases n,
{
    if n > 0 && !redundant_at(s, n - 1) {
        lemma_last_redundant_above(s, n - 1, p);
    }
}

proof fn lemma_last_redundant_is(s: Seq<Token>, n: int, i: int)
    requires
        i < n,
        redundant_at(s, i),
        forall|p: int| i < p < n ==> !#[trigger] redundant_at(s, p),
    ensures
        last_redundant_below(s, n) == Some(i),
    decreases n,
{
    if n - 1 > i {
        lemma_last_redundant_is(s, n - 1, i);
    }
}

/// Removing a redundant pair at `j` and then stripping gives what stripping alone gives.
pub proof fn lemma_stripped_without_pair(s: Seq<Token>, j: int)
    requires
        redundant_at(s, j),
    ensures
        stripped(without_pair(s, j)) == stripped(s),
    decreases s.len(),
{
    let n = s.len() as int;
    lemma_last_redundant_above(s, n, j);
    lemma_last_redundant_below(s, n);
    let i = last_redundant_below(s, n)->Some_0;
    assert(stripped(s) == stripped(without_pair(s, i)));
    if i == j {
    } else if i == j + 1 {
        assert(without_pair(s, i) =~= without_pair(s, j));
    } else {
        assert(i >= j + 3);
        let t = without_pair(s, j);
        let u = without_pair(s, i);
        assert(t.len() == n - 2);
        assert forall|k: int| 0 <= k < t.len() implies t[k] == (if k < j {
            s[k]
        } else if k == j {
            s[j + 1]
        } else {
            s[k + 2]
        }) by {}
        assert(redundant_at(t, i - 2));
        assert forall|p: int| i - 2 < p < t.len() implies !#[trigger] redundant_at(t, p) by {
            if redundant_at(t, p) {
                assert(redundant_at(s, p + 2));
                lemma_no_redundant_above(s, n, i, p + 2);
            }
        }
        lemma_last_redundant_is(t, t.len() as int, i - 2);
        assert(stripped(t) == stripped(without_pair(t, i - 2)));
        assert(redundant_at(u, j));
        assert(without_pair(t, i - 2) =~= without_pair(u, j));
        lemma_stripped_without_pair(u, j);
    }
}

proof fn lemma_no_redundant_above(s: Seq<Token>, n: int, i: int, p: int)
    requires
        last_redundant_below(s, n) == Some(i),
        i < p < n,
    ensures
        !redundant_at(s, p),
    decreases n,
{
    if n > 0 && !redundant_at(s, n - 1) {
        if p < n - 1 {
            lemma_no_redundant_above(s, n - 1, i, p);
        }
    }
}

/// Parentheses around a single token change nothing: a token sequence evaluates as it
/// does with any one such pair taken out.
pub proof fn law_redundant_pair_changes_nothing(s: Seq<Token>, j: int)
    requires
        redundant_at(s, j),
    ensures
        evaluation(s) == evaluation(without_pair(s, j)),
{
    lemma_stripped_without_pair(s, j);
}

/// Stripping leaves no redundant pair, so stripping twice is stripping once.
pub proof fn law_stripping_is_idempotent(s: Seq<Token>)
    ensures
        forall|p: int| !#[trigger] redundant_at(stripped(s), p),
        stripped(stripped(s)) == stripped(s),
    decreases s.len(),
{
    let n = s.len() as int;
    lemma_last_redundant_below(s, n);
    match last_redundant_below(s, n) {
        Some(i) => {
            law_stripping_is_idempotent(without_pair(s, i));
        },
        None => {
            assert forall|p: int| !#[trigger] redundant_at(s, p) by {
                if redundant_at(s, p) {
                    lemma_last_redundant_above(s, n, p);
                }
            }
        },
    }
}

pub proof fn lemma_stripped_without_open(s: Seq<Token>)
    requires
        forall|k: int| 0 <= k < s.len() ==> !(#[trigger] s[k] is Open),
    ensures
        stripped(s) == s,
{
    lemma_last_redundant_below(s, s.len() as int);
}

/// Of two operators between three numbers, the second is applied first exactly when it
/// binds tighter: `a o1 b o2 c` groups as `a o1 (b o2 c)` when `o2` takes precedence over
/// `o1`, and as `(a o1 b) o2 c` otherwise.
pub proof fn law_two_operators(a: Expr, o1: Op, b: Expr, o2: Op, c: Expr)
    ensures
        evaluation(
            seq![
                Token::Number(a),
                Token::Operation(o1),
                Token::Number(b),
                Token::Operation(o2),
                Token::Number(c),
            ],
        ) == Some(
            if defers(o1, o2) {
                Expr::Binary(o1, Box::new(a), Box::new(Expr::Binary(o2, Box::new(b), Box::new(c))))
            } else {
                Expr::Binary(o2, Box::new(Expr::Binary(o1, Box::new(a), Box::new(b))), Box::new(c))
            },
        ),
{
    let s = seq![
        Token::Number(a),
        Token::Operation(o1),
        Token::Number(b),
        Token::Operation(o2),
        Token::Number(c),
    ];
    lemma_stripped_without_open(s);
    reveal_with_fuel(next_operation_from, 6);
    if defers(o1, o2) {
        assert(next_operation(s) == Some(3int));
        let t = apply_at(s, 3);
        assert(t =~= seq![
            Token::Number(a),
            Token::Operation(o1),
            Token::Number(Expr::Binary(o2, Box::new(b), Box::new(c))),
        ]);
        lemma_stripped_without_open(t);
        assert(next_operation(t) == Some(1int));
        let u = apply_at(t, 1);
        assert(u =~= seq![
            Token::Number(
                Expr::Binary(o1, Box::new(a), Box::new(Expr::Binary(o2, Box::new(b), Box::new(c)))),
            ),
        ]);
        lemma_stripped_without_open(u);
        assert(next_operation(u) is None);
        assert(reduced(u) == Some(u));
        assert(reduced(t) == reduced(u));
        assert(reduced(s) == reduced(t));
    } else {
        assert(next_operation(s) == Some(1int));
        let t = apply_at(s, 1);
        assert(t =~= seq![
            Token::Number(Expr::Binary(o1, Box::new(a), Box::new(b))),
            Token::Operation(o2),
            Token::Number(c),
        ]);
        lemma_stripped_without_open(t);
        assert(next_operation(t) == Some(1int));
        let u = apply_at(t, 1);
        assert(u =~= seq![
            Token::Number(
                Expr::Binary(o2, Box::new(Expr::Binary(o1, Box::new(a), Box::new(b))), Box::new(c)),
            ),
        ]);
        lemma_stripped_without_open(u);
        assert(next_operation(u) is None);
        assert(reduced(u) == Some(u));
        assert(reduced(t) == reduced(u));
        assert(reduced(s) == reduced(t));
    }
}

/// Parentheses come first: `(a o1 b) o2 c` applies `o1` first, whatever the operators.
pub proof fn law_parenthesized_left(a: Expr, o1: Op, b: Expr, o2: Op, c: Expr)
    ensures
        evaluation(
            seq![
                Token::Open,
                Token::Number(a),
                Token::Operation(o1),
                Token::Number(b),
                Token::Close,
                Token::Operation(o2),
                Token::Number(c),
            ],
        ) == Some(
            Expr::Binary(o2, Box::new(Expr::Binary(o1, Box::new(a), Box::new(b))), Box::new(c)),
        ),
{
    let s = seq![
        Token::Open,
        Token::Number(a),
        Token::Operation(o1),
        Token::Number(b),
        Token::Close,
        Token::Operation(o2),
        Token::Number(c),
    ];
    let x = Expr::Binary(o1, Box::new(a), Box::new(b));
    reveal_with_fuel(last_redundant_below, 8);
    reveal_with_fuel(next_operation_from, 8);
    assert(last_redundant_below(s, 7) is None);
    assert(stripped(s) == s);
    assert(next_operation(s) == Some(2int));
    let t = apply_at(s, 2);
    assert(t =~= seq![
        Token::Open,
        Token::Number(x),
        Token::Close,
        Token::Operation(o2),
        Token::Number(c),
    ]);
    assert(last_redundant_below(t, 5) == Some(0int));
    let t2 = without_pair(t, 0);
    assert(t2 =~= seq![Token::Number(x), Token::Operation(o2), Token::Number(c)]);
    lemma_stripped_without_open(t2);
    assert(stripped(t) == t2);
    assert(next_operation(t2) == Some(1int));
    let u = apply_at(t2, 1);
    assert(u =~= seq![Token::Number(Expr::Binary(o2, Box::new(x), Box::new(c)))]);
    lemma_stripped_without_open(u);
    assert(next_operation(u) is None);
    assert(reduced(u) == Some(u));
    assert(reduced(t2) == reduced(u));
    assert(reduced(s) == reduced(t2));
}

/// Parentheses come first: `a o1 (b o2 c)` applies `o2` first, whatever the operators.
pub proof fn law_parenthesized_right(a: Expr, o1: Op, b: Expr, o2: Op, c: Expr)
    ensures
        evaluation(
            seq![
                Token::Number(a),
                Token::Operation(o1),
                Token::Open,
                Token::Number(b),
                Token::Operation(o2),
                Token::Number(c),
                Token::Close,
            ],
        ) == Some(
            Expr::Binary(o1, Box::new(a), Box::new(Expr::Binary(o2, Box::new(b), Box::new(c)))),
        ),
{
    let s = seq![
        Token::Number(a),
        Token::Operation(o1),
        Token::Open,
        Token::Number(b),
        Token::Operation(o2),
        Token::Number(c),
        Token::Close,
    ];
    let y = Expr::Binary(o2, Box::new(b), Box::new(c));
    reveal_with_fuel(last_redundant_below, 8);
    reveal_with_fuel(next_operation_from, 8);
    assert(last_redundant_below(s, 7) is None);
    assert(stripped(s) == s);
    assert(next_operation(s) == Some(4int));
    let t = apply_at(s, 4);
    assert(t =~= seq![
        Token::Number(a),
        Token::Operation(o1),
        Token::Open,
        Token::Number(y),
        Token::Close,
    ]);
    assert(last_redundant_below(t, 5) == Some(2int));
    let t2 = without_pair(t, 2);
    assert(t2 =~= seq![Token::Number(a), Token::Operation(o1), Token::Number(y)]);
    lemma_stripped_without_open(t2);
    assert(stripped(t) == t2);
    assert(next_operation(t2) == Some(1int));
    let u = apply_at(t2, 1);
    assert(u =~= seq![Token::Number(Expr::Binary(o1, Box::new(a), Box::new(y)))]);
    lemma_stripped_without_open(u);
    assert(next_operation(u) is None);
    assert(reduced(u) == Some(u));
    assert(reduced(t2) == reduced(u));
    assert(reduced(s) == reduced(t2));
}

/// Numbers at the even positions and operators at the odd ones, with a number at each end.
pub open spec fn alternating(s: Seq<Token>) -> bool {
    &&& s.len() % 2 == 1
    &&& forall|k: int| 0 <= k < s.len() ==> (#[trigger] s[k] is Number <==> k % 2 == 0)
    &&& forall|k: int| 0 <= k < s.len() ==> (#[trigger] s[k] is Operation <==> k % 2 == 1)
}

proof fn lemma_next_operation_found(s: Seq<Token>, k: int, m: int)
    requires
        0 <= k <= m,
        eligible(s, m),
    ensures
        next_operation_from(s, k) matches Some(i) && k <= i <= m && eligible(s, i),
    decreases m - k,
{
    if !eligible(s, k) {
        lemma_next_operation_found(s, k + 1, m);
    }
}

proof fn lemma_no_adjacency_from(s: Seq<Token>, k: int)
    requires
        alternating(s),
        0 <= k,
    ensures
        first_adjacency_from(s, k) is None,
    decreases s.len() - k,
{
    if k + 1 < s.len() {
        assert(adjacency(s[k], s[k + 1]) is None);
        lemma_no_adjacency_from(s, k + 1);
    }
}

proof fn lemma_alternating_reduces(s: Seq<Token>)
    requires
        alternating(s),
    ensures
        reduced(s) matches Some(r) && r.len() == 1 && r[0] is Number,
    decreases s.len(),
{
    lemma_stripped_without_open(s);
    if s.len() == 1 {
        assert(!eligible(s, 0));
        assert forall|j: int| !#[trigger] eligible(s, j) by {}
        if next_operation(s) is Some {
            lemma_next_operation_from_is_eligible(s, 0);
        }
        assert(next_operation(s) is None);
    } else {
        let m = s.len() - 2;
        assert(s[m] is Operation);
        assert(eligible(s, m));
        lemma_next_operation_found(s, 0, m);
        let i = next_operation(s)->Some_0;
        assert(i % 2 == 1);
        assert(operands_at(s, i));
        let t = apply_at(s, i);
        assert(t.len() == s.len() - 2);
        assert forall|k: int| 0 <= k < t.len() implies (#[trigger] t[k] is Number <==> k % 2
            == 0) && (t[k] is Operation <==> k % 2 == 1) by {
            if k < i - 1 {
                assert(t[k] == s[k]);
            } else if k > i - 1 {
                assert(t[k] == s[k + 2]);
            }
        }
        assert(alternating(t));
        lemma_stripped_without_open(t);
        lemma_alternating_reduces(t);
    }
}

proof fn lemma_next_operation_from_is_eligible(s: Seq<Token>, k: int)
    requires
        0 <= k,
    ensures
        next_operation_from(s, k) matches Some(i) ==> eligible(s, i),
    decreases s.len() - k,
{
    if k < s.len() && !eligible(s, k) {
        lemma_next_operation_from_is_eligible(s, k + 1);
    }
}

/// An expression without parentheses whose numbers and operators alternate is accepted
/// and reduced to a single expression: the reduction never stops short.
pub proof fn law_flat_expression_reduces(s: Seq<Token>)
    requires
        alternating(s),
    ensures
        token_check(s) is Ok,
        evaluation(s) is Some,
        outcome(s) is Ok,
{
    assert(s[0] is Number);
    assert(s[s.len() - 1] is Number);
    lemma_no_adjacency_from(s, 0);
    lemma_stripped_without_open(s);
    lemma_alternating_reduces(s);
}

} // verus!
