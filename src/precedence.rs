use vstd::prelude::*;

use crate::laws::{alternating, lemma_stripped_without_open};
use crate::states::tokens::{
    apply_at,
    defers,
    eligible,
    evaluation,
    last_redundant_below,
    lemma_last_redundant_below,
    next_operation,
    next_operation_from,
    operands_at,
    reduced,
    redundant_at,
    stripped,
    without_pair,
};
use crate::token::{Expr, Op, Token};

verus! {

/// How tightly an operator binds: sums, then products, then powers.
pub open spec fn level(o: Op) -> int {
    match o {
        Op::Add | Op::Sub => 0,
        Op::Mul | Op::Div => 1,
        Op::Pow => 2,
    }
}

pub open spec fn op_at(s: Seq<Token>, k: int) -> Op {
    s[k]->Operation_0
}

/// The levels of the operators before `i` rise strictly from each to the next.
pub open spec fn rises_to(s: Seq<Token>, i: int) -> bool {
    forall|j: int|
        0 < j < i && j % 2 == 1 ==> level(#[trigger] op_at(s, j)) < level(
            #[trigger] op_at(s, j + 2),
        )
}

/// The operator at `k` is the last one of the lowest level: in the conventional reading
/// it is applied last, to everything on its left and everything on its right.
pub open spec fn is_root(s: Seq<Token>, k: int) -> bool {
    &&& 0 < k < s.len()
    &&& k % 2 == 1
    &&& forall|j: int|
        0 < j < k && j % 2 == 1 ==> level(#[trigger] op_at(s, j)) >= level(op_at(s, k))
    &&& forall|j: int|
        k < j < s.len() && j % 2 == 1 ==> level(#[trigger] op_at(s, j)) > level(op_at(s, k))
}

/// The conventional reading of an alternating sequence of numbers and operators: higher
/// levels bind tighter, and operators of one level group from the left.
#[verifier::opaque]
pub open spec fn grouped(s: Seq<Token>) -> Expr
    decreases s.len(),
{
    if s.len() > 1 && exists|k: int| is_root(s, k) {
        let k = choose|k: int| is_root(s, k);
        Expr::Binary(op_at(s, k), Box::new(grouped(s.take(k))), Box::new(grouped(s.skip(k + 1))))
    } else {
        s[0]->Number_0
    }
}

proof fn lemma_defers_is_lower(a: Op, b: Op)
    ensures
        defers(a, b) <==> level(a) < level(b),
{
}

proof fn lemma_root_unique(s: Seq<Token>, a: int, b: int)
    requires
        is_root(s, a),
        is_root(s, b),
    ensures
        a == b,
{
    if a < b {
        assert(level(op_at(s, b)) > level(op_at(s, a)));
    } else if b < a {
        assert(level(op_at(s, a)) > level(op_at(s, b)));
    }
}

proof fn lemma_root_exists(s: Seq<Token>)
    requires
        alternating(s),
        s.len() > 1,
    ensures
        exists|k: int| is_root(s, k),
    decreases s.len(),
{
    let m = s.len() - 2;
    if s.len() == 3 {
        assert(is_root(s, 1));
    } else {
        let p = s.take(m);
        assert forall|k: int| 0 <= k < p.len() implies (#[trigger] p[k] is Number <==> k % 2
            == 0) && (p[k] is Operation <==> k % 2 == 1) by {
            assert(p[k] == s[k]);
        }
        lemma_root_exists(p);
        let k = choose|k: int| is_root(p, k);
        assert forall|j: int| 0 < j < m implies #[trigger] op_at(p, j) == op_at(s, j) by {}
        if level(op_at(s, m)) <= level(op_at(s, k)) {
            assert forall|j: int| 0 < j < m && j % 2 == 1 implies level(
                #[trigger] op_at(s, j),
            ) >= level(op_at(s, m)) by {
                assert(op_at(p, j) == op_at(s, j));
                if j > k {
                    assert(level(op_at(p, j)) > level(op_at(p, k)));
                } else if j < k {
                    assert(level(op_at(p, j)) >= level(op_at(p, k)));
                }
            }
            assert(is_root(s, m));
        } else {
            assert forall|j: int| 0 < j < k && j % 2 == 1 implies level(
                #[trigger] op_at(s, j),
            ) >= level(op_at(s, k)) by {
                assert(op_at(p, j) == op_at(s, j));
                assert(level(op_at(p, j)) >= level(op_at(p, k)));
            }
            assert forall|j: int| k < j < s.len() && j % 2 == 1 implies level(
                #[trigger] op_at(s, j),
            ) > level(op_at(s, k)) by {
                if j < m {
                    assert(op_at(p, j) == op_at(s, j));
                    assert(level(op_at(p, j)) > level(op_at(p, k)));
                }
            }
            assert(is_root(s, k));
        }
    }
}

proof fn lemma_shifted_alternating(s: Seq<Token>, k: int)
    requires
        alternating(s),
        0 <= k < s.len(),
        k % 2 == 0,
    ensures
        alternating(s.skip(k)),
{
    let r = s.skip(k);
    assert forall|p: int| 0 <= p < r.len() implies (#[trigger] r[p] is Number <==> p % 2 == 0)
        && (r[p] is Operation <==> p % 2 == 1) by {
        assert(r[p] == s[p + k]);
    }
}

proof fn lemma_prefix_alternating(s: Seq<Token>, k: int)
    requires
        alternating(s),
        0 < k <= s.len(),
        k % 2 == 1,
    ensures
        alternating(s.take(k)),
{
    let r = s.take(k);
    assert forall|p: int| 0 <= p < r.len() implies (#[trigger] r[p] is Number <==> p % 2 == 0)
        && (r[p] is Operation <==> p % 2 == 1) by {
        assert(r[p] == s[p]);
    }
}

proof fn lemma_grouped_root(s: Seq<Token>, k: int)
    requires
        s.len() > 1,
        is_root(s, k),
    ensures
        grouped(s) == Expr::Binary(
            op_at(s, k),
            Box::new(grouped(s.take(k))),
            Box::new(grouped(s.skip(k + 1))),
        ),
{
    reveal(grouped);
    let c = choose|c: int| is_root(s, c);
    lemma_root_unique(s, c, k);
}

proof fn lemma_grouped_single(s: Seq<Token>)
    requires
        s.len() == 1,
    ensures
        grouped(s) == s[0]->Number_0,
{
    reveal(grouped);
}

/// The shape of `apply_at(s, i)` on an alternating sequence.
proof fn lemma_apply_at_shape(s: Seq<Token>, i: int)
    requires
        alternating(s),
        0 < i < s.len(),
        i % 2 == 1,
    ensures
        i + 1 < s.len(),
        apply_at(s, i).len() == s.len() - 2,
        alternating(apply_at(s, i)),
        forall|p: int|
            0 < p < s.len() - 2 && p % 2 == 1 ==> #[trigger] op_at(apply_at(s, i), p) == (if p
                < i - 1 {
                op_at(s, p)
            } else {
                op_at(s, p + 2)
            }),
{
    let t = apply_at(s, i);
    assert(i + 1 < s.len());
    assert forall|p: int| 0 <= p < t.len() && p != i - 1 implies #[trigger] t[p] == (if p < i
        - 1 {
        s[p]
    } else {
        s[p + 2]
    }) by {}
    assert forall|p: int| 0 <= p < t.len() implies (#[trigger] t[p] is Number <==> p % 2 == 0)
        && (t[p] is Operation <==> p % 2 == 1) by {
        if p != i - 1 {
            assert(t[p] == (if p < i - 1 {
                s[p]
            } else {
                s[p + 2]
            }));
        }
    }
}

/// The root of `s` lies left of `i`: it stays the root, and the collapse happens in the
/// part on its right.
proof fn lemma_right_part(s: Seq<Token>, i: int, k: int)
    requires
        alternating(s),
        0 < i < s.len(),
        i % 2 == 1,
        rises_to(s, i),
        i + 2 < s.len() ==> level(op_at(s, i)) >= level(op_at(s, i + 2)),
        is_root(s, k),
        k < i,
    ensures
        is_root(apply_at(s, i), k),
        alternating(s.skip(k + 1)),
        rises_to(s.skip(k + 1), i - k - 1),
        i - k - 1 + 2 < s.skip(k + 1).len() ==> level(op_at(s.skip(k + 1), i - k - 1)) >= level(
            op_at(s.skip(k + 1), i - k - 1 + 2),
        ),
        apply_at(s, i).take(k) == s.take(k),
        apply_at(s, i).skip(k + 1) == apply_at(s.skip(k + 1), i - k - 1),
{
    let t = apply_at(s, i);
    let r = s.skip(k + 1);
    let i2 = i - k - 1;
    lemma_apply_at_shape(s, i);
    assert forall|j: int| 0 < j < t.len() && j % 2 == 1 && j != k implies (j < k ==> level(
        #[trigger] op_at(t, j),
    ) >= level(op_at(t, k))) && (j > k ==> level(op_at(t, j)) > level(op_at(t, k))) by {
        assert(op_at(t, k) == op_at(s, k));
        if j < i - 1 {
            assert(op_at(t, j) == op_at(s, j));
        } else {
            assert(op_at(t, j) == op_at(s, j + 2));
        }
    }
    assert(is_root(t, k));
    lemma_shifted_alternating(s, k + 1);
    assert forall|j: int| 0 < j < i2 && j % 2 == 1 implies level(
        #[trigger] op_at(r, j),
    ) < level(#[trigger] op_at(r, j + 2)) by {
        assert(op_at(r, j) == op_at(s, j + k + 1));
        assert(op_at(r, j + 2) == op_at(s, j + k + 3));
        assert(level(op_at(s, j + k + 1)) < level(op_at(s, j + k + 1 + 2)));
    }
    if i2 + 2 < r.len() {
        assert(op_at(r, i2) == op_at(s, i));
        assert(op_at(r, i2 + 2) == op_at(s, i + 2));
    }
    assert(t.take(k) =~= s.take(k));
    assert(t.skip(k + 1) =~= apply_at(r, i2));
}

/// The root of `s` lies right of `i`: it stays the root, two places further left, and the
/// collapse happens in the part on its left.
proof fn lemma_left_part(s: Seq<Token>, i: int, k: int)
    requires
        alternating(s),
        0 < i < s.len(),
        i % 2 == 1,
        rises_to(s, i),
        i + 2 < s.len() ==> level(op_at(s, i)) >= level(op_at(s, i + 2)),
        is_root(s, k),
        k > i,
    ensures
        is_root(apply_at(s, i), k - 2),
        op_at(apply_at(s, i), k - 2) == op_at(s, k),
        alternating(s.take(k)),
        rises_to(s.take(k), i),
        i + 2 < s.take(k).len() ==> level(op_at(s.take(k), i)) >= level(op_at(s.take(k), i + 2)),
        apply_at(s, i).take(k - 2) == apply_at(s.take(k), i),
        apply_at(s, i).skip(k - 1) == s.skip(k + 1),
{
    let t = apply_at(s, i);
    let l = s.take(k);
    lemma_apply_at_shape(s, i);
    assert forall|j: int| 0 < j < t.len() && j % 2 == 1 && j != k - 2 implies (j < k - 2 ==> level(
        #[trigger] op_at(t, j),
    ) >= level(op_at(t, k - 2))) && (j > k - 2 ==> level(op_at(t, j)) > level(op_at(t, k - 2))) by {
        assert(op_at(t, k - 2) == op_at(s, k));
        if j < i - 1 {
            assert(op_at(t, j) == op_at(s, j));
        } else {
            assert(op_at(t, j) == op_at(s, j + 2));
        }
    }
    assert(op_at(t, k - 2) == op_at(s, k));
    assert(is_root(t, k - 2));
    lemma_prefix_alternating(s, k);
    assert forall|j: int| 0 < j < i && j % 2 == 1 implies level(
        #[trigger] op_at(l, j),
    ) < level(#[trigger] op_at(l, j + 2)) by {
        assert(op_at(l, j) == op_at(s, j));
        assert(op_at(l, j + 2) == op_at(s, j + 2));
    }
    if i + 2 < l.len() {
        assert(op_at(l, i) == op_at(s, i));
        assert(op_at(l, i + 2) == op_at(s, i + 2));
    }
    assert(t.take(k - 2) =~= apply_at(l, i));
    assert(t.skip(k - 1) =~= s.skip(k + 1));
}

/// The root of `s` is `i` itself: then `s` is a single operation.
proof fn lemma_at_root(s: Seq<Token>, i: int)
    requires
        alternating(s),
        0 < i < s.len(),
        i % 2 == 1,
        rises_to(s, i),
        i + 2 < s.len() ==> level(op_at(s, i)) >= level(op_at(s, i + 2)),
        is_root(s, i),
    ensures
        grouped(apply_at(s, i)) == grouped(s),
{
    let n = s.len() as int;
    let t = apply_at(s, i);
    if i > 1 {
        assert(level(op_at(s, i - 2)) < level(op_at(s, i - 2 + 2)));
    }
    if i + 2 < n {
        assert(level(op_at(s, i + 2)) > level(op_at(s, i)));
    }
    assert(i == 1 && n == 3);
    assert(t.len() == 1);
    lemma_grouped_single(t);
    assert(s.take(1).len() == 1);
    lemma_grouped_single(s.take(1));
    assert(s.skip(2).len() == 1);
    lemma_grouped_single(s.skip(2));
    lemma_grouped_root(s, i);
}

/// Applying the operator at `i`, where the levels rise strictly up to `i` and do not rise
/// after it, leaves the conventional reading as it is.
proof fn lemma_collapse(s: Seq<Token>, i: int)
    requires
        alternating(s),
        0 < i < s.len(),
        i % 2 == 1,
        rises_to(s, i),
        i + 2 < s.len() ==> level(op_at(s, i)) >= level(op_at(s, i + 2)),
    ensures
        alternating(apply_at(s, i)),
        grouped(apply_at(s, i)) == grouped(s),
    decreases s.len(),
{
    let t = apply_at(s, i);
    lemma_apply_at_shape(s, i);
    lemma_root_exists(s);
    let k = choose|k: int| is_root(s, k);
    if k == i {
        lemma_at_root(s, i);
    } else if k < i {
        lemma_right_part(s, i, k);
        lemma_collapse(s.skip(k + 1), i - k - 1);
        lemma_grouped_root(s, k);
        lemma_grouped_root(t, k);
        assert(op_at(t, k) == op_at(s, k));
    } else {
        lemma_left_part(s, i, k);
        lemma_collapse(s.take(k), i);
        lemma_grouped_root(s, k);
        lemma_grouped_root(t, k - 2);
    }
}

proof fn lemma_next_operation_first(s: Seq<Token>, k: int)
    requires
        0 <= k,
    ensures
        next_operation_from(s, k) matches Some(i) ==> eligible(s, i) && k <= i && forall|j: int|
            k <= j < i ==> !#[trigger] eligible(s, j),
    decreases s.len() - k,
{
    if k < s.len() && !eligible(s, k) {
        lemma_next_operation_first(s, k + 1);
    }
}

/// The first eligible operator of an alternating sequence: the levels rise strictly up to
/// it and do not rise after it.
proof fn lemma_first_eligible(s: Seq<Token>)
    requires
        alternating(s),
        s.len() > 1,
    ensures
        next_operation(s) matches Some(i) && 0 < i < s.len() && i % 2 == 1 && operands_at(s, i)
            && rises_to(s, i) && (i + 2 < s.len() ==> level(op_at(s, i)) >= level(
            op_at(s, i + 2),
        )),
{
    let n = s.len() as int;
    lemma_next_operation_first(s, 0);
    let m = n - 2;
    assert(eligible(s, m));
    if next_operation(s) is None {
        lemma_next_from_some(s, 0, m);
    }
    let i = next_operation(s)->Some_0;
    assert(s[i] is Operation);
    assert(operands_at(s, i));
    assert forall|j: int| 0 < j < i && j % 2 == 1 implies level(
        #[trigger] op_at(s, j),
    ) < level(#[trigger] op_at(s, j + 2)) by {
        assert(!eligible(s, j));
        assert(s[j + 2] is Operation);
        lemma_defers_is_lower(op_at(s, j), op_at(s, j + 2));
    }
    if i + 2 < n {
        assert(s[i + 2] is Operation);
        lemma_defers_is_lower(op_at(s, i), op_at(s, i + 2));
    }
}

proof fn lemma_reduces_to_grouped(s: Seq<Token>)
    requires
        alternating(s),
    ensures
        reduced(s) == Some(seq![Token::Number(grouped(s))]),
    decreases s.len(),
{
    lemma_stripped_without_open(s);
    if s.len() == 1 {
        lemma_next_operation_first(s, 0);
        assert(!eligible(s, 0));
        assert(next_operation(s) is None);
        lemma_grouped_single(s);
        assert(s =~= seq![Token::Number(grouped(s))]);
    } else {
        lemma_first_eligible(s);
        let i = next_operation(s)->Some_0;
        lemma_collapse(s, i);
        let t = apply_at(s, i);
        lemma_stripped_without_open(t);
        lemma_reduces_to_grouped(t);
    }
}

proof fn lemma_next_from_some(s: Seq<Token>, k: int, m: int)
    requires
        0 <= k <= m,
        eligible(s, m),
    ensures
        next_operation_from(s, k) is Some,
    decreases m - k,
{
    if !eligible(s, k) {
        lemma_next_from_some(s, k + 1, m);
    }
}

/// Without parentheses, an expression is reduced to its conventional reading: operators
/// of a higher level bind tighter, and operators of one level group from the left.
pub proof fn law_flat_precedence(s: Seq<Token>)
    requires
        alternating(s),
    ensures
        evaluation(s) == Some(grouped(s)),
{
    lemma_stripped_without_open(s);
    lemma_reduces_to_grouped(s);
}

/// `s` inside one more pair of parentheses.
pub open spec fn wrapped(s: Seq<Token>) -> Seq<Token> {
    seq![Token::Open] + s + seq![Token::Close]
}

proof fn lemma_wrapped_index(s: Seq<Token>)
    ensures
        wrapped(s).len() == s.len() + 2,
        wrapped(s)[0] == Token::Open,
        wrapped(s)[s.len() + 1int] == Token::Close,
        forall|j: int| 0 <= j < s.len() ==> #[trigger] wrapped(s)[j + 1] == s[j],
{
}

proof fn lemma_wrapped_next_operation(s: Seq<Token>)
    requires
        alternating(s),
        s.len() > 1,
    ensures
        next_operation(s) matches Some(i) && next_operation(wrapped(s)) == Some(i + 1),
{
    let w = wrapped(s);
    lemma_wrapped_index(s);
    lemma_first_eligible(s);
    let i = next_operation(s)->Some_0;
    lemma_next_operation_first(s, 0);
    assert forall|j: int| 0 <= j < s.len() implies #[trigger] eligible(w, j + 1) == eligible(
        s,
        j,
    ) by {
        if j + 2 < s.len() {
            assert(w[j + 3] == s[j + 2]);
        } else if j + 2 == s.len() {
            assert(w[j + 3] == Token::Close);
        }
    }
    assert(eligible(w, i + 1));
    lemma_next_from_some(w, 0, i + 1);
    lemma_next_operation_first(w, 0);
    let i2 = next_operation(w)->Some_0;
    assert(!eligible(w, 0));
    assert(!eligible(w, s.len() + 1int));
    assert(eligible(s, i2 - 1));
    if i2 < i + 1 {
        assert(!eligible(s, i2 - 1));
    }
}

proof fn lemma_wrapped_reduces(s: Seq<Token>)
    requires
        alternating(s),
    ensures
        reduced(stripped(wrapped(s))) == Some(seq![Token::Number(grouped(s))]),
    decreases s.len(),
{
    let w = wrapped(s);
    lemma_wrapped_index(s);
    lemma_last_redundant_below(w, w.len() as int);
    if s.len() == 1 {
        assert(redundant_at(w, 0));
        reveal_with_fuel(last_redundant_below, 4);
        assert(last_redundant_below(w, 3) == Some(0int));
        assert(without_pair(w, 0) =~= s);
        lemma_stripped_without_open(s);
        assert(stripped(w) == s);
        lemma_reduces_to_grouped(s);
    } else {
        assert forall|p: int| !#[trigger] redundant_at(w, p) by {
            if redundant_at(w, p) {
                if p > 0 {
                    assert(w[p] == s[p - 1]);
                } else {
                    assert(w[2] == s[1]);
                }
            }
        }
        if last_redundant_below(w, w.len() as int) is Some {
            lemma_last_redundant_below(w, w.len() as int);
        }
        assert(stripped(w) == w);
        lemma_wrapped_next_operation(s);
        lemma_first_eligible(s);
        let i = next_operation(s)->Some_0;
        let t = apply_at(s, i);
        assert(operands_at(w, i + 1));
        assert(apply_at(w, i + 1) =~= wrapped(t));
        lemma_collapse(s, i);
        lemma_wrapped_reduces(t);
    }
}

/// One more pair of parentheses around a whole expression without parentheses changes
/// nothing.
pub proof fn law_wrapping_flat_expression(s: Seq<Token>)
    requires
        alternating(s),
    ensures
        evaluation(wrapped(s)) == evaluation(s),
        evaluation(s) == Some(grouped(s)),
{
    lemma_wrapped_reduces(s);
    law_flat_precedence(s);
}

} // verus!
