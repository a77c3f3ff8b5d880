use vstd::prelude::*;
use crate::ast::{EvaluationError, Node, Spanned};
use crate::eval::{display_name, range_count, sem, sem_display, sem_repeat, sem_seq, Bindings, Lines, Outcome};
use crate::ast::Span;
use crate::parser::{
    digit_literal_spec, digit_run_end, digit_value, digits_value, has_fraction_at, is_lone_literal, is_range_at,
    number_end, number_result,
};
use crate::ast::SyntaxError;
use crate::value::{strip_leading_zeros, strip_trailing_zeros};
use crate::value::{all_digits, digit_char, is_digit, nat_text, Value};

verus! {

/// The value a literal node stands for.
pub open spec fn literal_value(n: Node) -> Option<Value> {
    match n {
        Node::NumericLiteral(d) => Some(Value::Number(d)),
        Node::StringLiteral(s) => Some(Value::String(s)),
        Node::BooleanLiteral(b) => Some(Value::Boolean(b)),
        Node::Range(a, b) => Some(Value::Range(a, b)),
        _ => None,
    }
}

pub open spec fn all_literals(args: Seq<Spanned>) -> bool {
    forall|k: int| 0 <= k < args.len() ==> (#[trigger] literal_value(args[k].0)) is Some
}

/// The texts of the literals `args[i..]`, joined with no separator.
pub open spec fn literal_texts(args: Seq<Spanned>, i: int) -> Seq<char>
    decreases args.len() - i,
{
    if 0 <= i < args.len() {
        literal_value(args[i].0)->0.spec_text() + literal_texts(args, i + 1)
    } else {
        Seq::empty()
    }
}

/// `stmt` is a call of `display` on the one string literal `t`.
pub open spec fn displays_text(stmt: Spanned, t: Seq<char>) -> bool {
    match stmt.0 {
        Node::Call(callee, args) => {
            &&& callee.0 matches Node::Ident(name) && name@ == display_name()
            &&& args@.len() == 1
            &&& args@[0].0 matches Node::StringLiteral(s) && s@ == t
        },
        _ => false,
    }
}

proof fn lemma_display_from(args: Vec<Spanned>, i: nat, env: Bindings, out: Lines, acc: Seq<char>)
    requires
        all_literals(args@),
        i <= args@.len(),
    ensures
        sem_display(args, i, env, out, acc) == (Outcome::Value(Value::Null), env, out.push(acc + literal_texts(args@, i as int))),
    decreases args@.len() - i,
{
    if i < args@.len() {
        assert(literal_value(args@[i as int].0) is Some);
        assert(sem(args@[i as int], env, out) == (
            Outcome::Value(literal_value(args@[i as int].0)->0),
            env,
            out,
        ));
        lemma_display_from(args, i + 1, env, out, acc + literal_value(args@[i as int].0)->0.spec_text());
        assert(acc + literal_value(args@[i as int].0)->0.spec_text() + literal_texts(args@, (i + 1) as int) =~= acc
            + literal_texts(args@, i as int));
    } else {
        assert(acc + literal_texts(args@, i as int) =~= acc);
    }
}

/// `display` on literal arguments writes one line: their texts joined with no separator,
/// in order; it changes no binding and comes to `Null`.
pub proof fn law_display_concatenates(n: Spanned, callee: Box<Spanned>, args: Vec<Spanned>, env: Bindings, out: Lines)
    requires
        n.0 == Node::Call(callee, args),
        callee.0 matches Node::Ident(name) && name@ == display_name(),
        all_literals(args@),
    ensures
        sem(n, env, out) == (Outcome::Value(Value::Null), env, out.push(literal_texts(args@, 0))),
{
    lemma_display_from(args, 0, env, out, Seq::empty());
    assert(Seq::<char>::empty() + literal_texts(args@, 0) =~= literal_texts(args@, 0));
}

/// A name that no binding holds cannot be read: the failure names it and points at it,
/// and nothing else changes.
pub proof fn law_unbound_variable(n: Spanned, name: String, env: Bindings, out: Lines)
    requires
        n.0 == Node::Ident(name),
        !env.contains_key(name@),
    ensures
        sem(n, env, out) == (Outcome::Failed((EvaluationError::VariableNotFound(name), n.1)), env, out),
{
}

/// Calling any name but `display` fails with that name, at the callee, before any argument runs.
pub proof fn law_unknown_function(n: Spanned, callee: Box<Spanned>, args: Vec<Spanned>, name: String, env: Bindings, out: Lines)
    requires
        n.0 == Node::Call(callee, args),
        callee.0 == Node::Ident(name),
        name@ != display_name(),
    ensures
        sem(n, env, out) == (Outcome::Failed((EvaluationError::FunctionNotFound(name), callee.1)), env, out),
{
}

/// A loop whose condition is `true` is entered once and never tests its condition again.
pub proof fn law_true_loop_never_ends(n: Spanned, cond: Box<Spanned>, body: Vec<Spanned>, env: Bindings, out: Lines)
    requires
        n.0 == Node::While(cond, body),
        cond.0 == Node::BooleanLiteral(true),
    ensures
        sem(n, env, out) == (Outcome::Forever(body), env, out),
{
    assert(sem(*cond, env, out) == (Outcome::Value(Value::Boolean(true)), env, out));
}

proof fn lemma_repeat_display(body: Vec<Spanned>, t: Seq<char>, k: nat, env: Bindings, out: Lines)
    requires
        body@.len() == 1,
        displays_text(body@[0], t),
    ensures
        sem_repeat(body, k, env, out) == (Outcome::Value(Value::Null), env, out + Seq::new(k, |_i: int| t)),
    decreases k,
{
    if k == 0 {
        assert(out + Seq::new(0, |_i: int| t) =~= out);
    } else {
        let stmt = body@[0];
        if let Node::Call(callee, args) = stmt.0 {
            assert(literal_value(args@[0].0) is Some);
            assert(all_literals(args@));
            lemma_display_from(args, 0, env, out, Seq::empty());
            assert(literal_texts(args@, 1) == Seq::<char>::empty());
            assert(Seq::<char>::empty() + literal_texts(args@, 0) =~= t);
            assert(sem(stmt, env, out) == (Outcome::Value(Value::Null), env, out.push(t)));
            assert(sem_seq(body, 1, env, out.push(t)) == (Outcome::Value(Value::Null), env, out.push(t)));
            assert(sem_seq(body, 0, env, out) == (Outcome::Value(Value::Null), env, out.push(t)));
            lemma_repeat_display(body, t, (k - 1) as nat, env, out.push(t));
            assert(out.push(t) + Seq::new((k - 1) as nat, |_i: int| t) =~= out + Seq::new(k, |_i: int| t));
        }
    }
}

/// A loop over the range literal `a..b` runs its body `max(b - a, 0)` times: with a body that
/// displays a text, exactly that many lines of it are written.
pub proof fn law_range_loop_count(
    n: Spanned,
    cond: Box<Spanned>,
    body: Vec<Spanned>,
    a: i64,
    b: i64,
    t: Seq<char>,
    env: Bindings,
    out: Lines,
)
    requires
        n.0 == Node::While(cond, body),
        cond.0 == Node::Range(a, b),
        body@.len() == 1,
        displays_text(body@[0], t),
    ensures
        sem(n, env, out) == sem_repeat(body, range_count(a as int, b as int), env, out),
        sem(n, env, out) == (
            Outcome::Value(Value::Null),
            env,
            out + Seq::new(range_count(a as int, b as int), |_i: int| t),
        ),
        range_count(a as int, b as int) == if a < b { b - a } else { 0 },
{
    assert(sem(*cond, env, out) == (Outcome::Value(Value::Range(a, b)), env, out));
    lemma_repeat_display(body, t, range_count(a as int, b as int), env, out);
}

proof fn lemma_nat_text(n: nat)
    ensures
        nat_text(n).len() > 0,
        all_digits(nat_text(n)),
        digits_value(nat_text(n)) == n,
    decreases n,
{
    let t = nat_text(n);
    if n < 10 {
        assert(t.drop_last() =~= Seq::<char>::empty());
        assert(digits_value(Seq::<char>::empty()) == 0);
        assert(t.last() == digit_char(n as int));
        assert(digit_value(digit_char(n as int)) == n);
        assert(digits_value(t) == digits_value(t.drop_last()) * 10 + digit_value(t.last()));
    } else {
        lemma_nat_text(n / 10);
        assert(t.drop_last() =~= nat_text(n / 10));
        assert(digit_value(digit_char((n % 10) as int)) == n % 10);
        assert(t.last() == digit_char((n % 10) as int));
        assert(digits_value(t) == digits_value(t.drop_last()) * 10 + digit_value(t.last()));
        assert((n / 10) * 10 + n % 10 == n) by (nonlinear_arith);
        assert forall|k: int| 0 <= k < t.len() implies is_digit(#[trigger] t[k]) by {
            if k < t.len() - 1 {
                assert(t[k] == nat_text(n / 10)[k]);
            }
        }
    }
}

proof fn lemma_run_end_over_digits(s: Seq<char>, from: int, i: int, to: int)
    requires
        0 <= from <= i <= to <= s.len(),
        forall|k: int| from <= k < to ==> is_digit(#[trigger] s[k]),
        to == s.len() || !is_digit(s[to]),
    ensures
        digit_run_end(s, i) == to,
    decreases to - i,
{
    if i < to {
        lemma_run_end_over_digits(s, from, i + 1, to);
    }
}

/// Every range literal written in decimal, `a..b` with `a` and `b` non-negative, is read as the
/// single range `Range(a, b)` spanning the whole text.
pub proof fn law_range_literal_text(a: i64, b: i64)
    requires
        a >= 0,
        b >= 0,
    ensures
        is_lone_literal(nat_text(a as nat) + seq!['.', '.'] + nat_text(b as nat)),
        ({
            let s = nat_text(a as nat) + seq!['.', '.'] + nat_text(b as nat);
            digit_literal_spec(
                s,
                0,
                Ok(((Node::Range(a, b), Span { start: 0, end: s.len() as usize }), s.len() as usize)),
            )
        }),
{
    let ta = nat_text(a as nat);
    let tb = nat_text(b as nat);
    let s = ta + seq!['.', '.'] + tb;
    lemma_nat_text(a as nat);
    lemma_nat_text(b as nat);
    let la = ta.len() as int;
    assert forall|k: int| 0 <= k < la implies is_digit(#[trigger] s[k]) by {
        assert(s[k] == ta[k]);
    }
    assert(s[la] == '.');
    lemma_run_end_over_digits(s, 0, 0, la);
    assert forall|k: int| la + 2 <= k < s.len() implies is_digit(#[trigger] s[k]) by {
        assert(s[k] == tb[k - la - 2]);
    }
    assert(s[la + 2] == tb[0]);
    lemma_run_end_over_digits(s, la + 2, la + 2, s.len() as int);
    assert(is_range_at(s, 0));
    assert(s.subrange(0, la) =~= ta);
    assert(s.subrange(la + 2, s.len() as int) =~= tb);
}

proof fn lemma_number_end_over(s: Seq<char>, i: int, to: int)
    requires
        0 <= i <= to,
        to == s.len(),
        forall|k: int| i <= k < to ==> is_digit(#[trigger] s[k]) || (s[k] == '.' && k + 1 < to && is_digit(s[k + 1])),
    ensures
        number_end(s, i) == to,
    decreases to - i,
{
    if i < to {
        lemma_number_end_over(s, i + 1, to);
    }
}

/// Every number literal of one digit run, or of two joined by one `.`, is read as that decimal
/// number: the digits before the point without leading zeros, after it without trailing zeros.
pub proof fn law_number_literal_text(d1: Seq<char>, d2: Seq<char>, r: Result<(Spanned, usize), SyntaxError>)
    requires
        d1.len() > 0,
        all_digits(d1),
        all_digits(d2),
        digit_literal_spec(if d2.len() == 0 { d1 } else { d1 + seq!['.'] + d2 }, 0, r),
    ensures
        is_lone_literal(if d2.len() == 0 { d1 } else { d1 + seq!['.'] + d2 }),
        number_result(
            r,
            0,
            (if d2.len() == 0 { d1 } else { d1 + seq!['.'] + d2 }).len() as int,
            strip_leading_zeros(d1),
            strip_trailing_zeros(d2),
        ),
{
    let s = if d2.len() == 0 { d1 } else { d1 + seq!['.'] + d2 };
    let l1 = d1.len() as int;
    assert forall|k: int| 0 <= k < l1 implies is_digit(#[trigger] s[k]) by {
        assert(s[k] == d1[k]);
    }
    if d2.len() == 0 {
        lemma_run_end_over_digits(s, 0, 0, l1);
        lemma_number_end_over(s, 0, l1);
        assert(s.subrange(0, l1) =~= d1);
        assert(strip_trailing_zeros(Seq::<char>::empty()) == Seq::<char>::empty());
        assert(d2 =~= Seq::<char>::empty());
    } else {
        assert(s[l1] == '.');
        lemma_run_end_over_digits(s, 0, 0, l1);
        assert forall|k: int| l1 + 1 <= k < s.len() implies is_digit(#[trigger] s[k]) by {
            assert(s[k] == d2[k - l1 - 1]);
        }
        assert(s[l1 + 1] == d2[0]);
        lemma_run_end_over_digits(s, l1 + 1, l1 + 1, s.len() as int);
        lemma_number_end_over(s, 0, s.len() as int);
        assert(!is_range_at(s, 0));
        assert(has_fraction_at(s, 0));
        assert(s.subrange(0, l1) =~= d1);
        assert(s.subrange(l1 + 1, s.len() as int) =~= d2);
    }
}

} // verus!
