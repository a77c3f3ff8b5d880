use vstd::prelude::*;
use crate::ast::{EvaluationError, Node, Spanned, SpannedEvaluationError};
use crate::env::Environment;
use crate::value::Value;

verus! {

broadcast use vstd::std_specs::vec::axiom_vec_index_decreases;

/// What evaluating a node comes to, as the semantics states it.
pub enum Outcome {
    Value(Value),
    Failed(SpannedEvaluationError),
    /// An unconditional loop was entered: its body repeats until one of its runs fails.
    Forever(Vec<Spanned>),
}

/// What evaluating a node came to.
pub enum Flow<'a> {
    Value(Value),
    Failed(SpannedEvaluationError),
    /// An unconditional loop over this body was entered; the caller repeats it with `eval_block`.
    Forever(&'a Vec<Spanned>),
}

impl<'a> Flow<'a> {
    pub open spec fn model(&self) -> Outcome {
        match *self {
            Flow::Value(v) => Outcome::Value(v),
            Flow::Failed(e) => Outcome::Failed(e),
            Flow::Forever(b) => Outcome::Forever(*b),
        }
    }
}

/// Variable bindings, as a map from name to value.
pub type Bindings = Map<Seq<char>, Value>;

/// The lines written by `display`, oldest first.
pub type Lines = Seq<Seq<char>>;

pub open spec fn lines_of(s: Seq<String>) -> Lines {
    s.map_values(|x: String| x@)
}

pub open spec fn display_name() -> Seq<char> {
    seq!['d', 'i', 's', 'p', 'l', 'a', 'y']
}

/// Number of times a range `start..end` runs a loop body.
pub open spec fn range_count(start: int, end: int) -> nat {
    if start < end {
        (end - start) as nat
    } else {
        0
    }
}

/// Evaluating `n` with bindings `env`, after `out` has been written: the outcome,
/// the bindings after it and all lines written by then.
pub open spec fn sem(n: Spanned, env: Bindings, out: Lines) -> (Outcome, Bindings, Lines)
    decreases n, 0nat, 0nat,
{
    match n.0 {
        Node::NumericLiteral(d) => (Outcome::Value(Value::Number(d)), env, out),
        Node::StringLiteral(s) => (Outcome::Value(Value::String(s)), env, out),
        Node::BooleanLiteral(b) => (Outcome::Value(Value::Boolean(b)), env, out),
        Node::Range(a, b) => (Outcome::Value(Value::Range(a, b)), env, out),
        Node::Ident(name) => if env.contains_key(name@) {
            (Outcome::Value(env[name@]), env, out)
        } else {
            (Outcome::Failed((EvaluationError::VariableNotFound(name), n.1)), env, out)
        },
        Node::Op(op) => (Outcome::Failed((EvaluationError::Unsupported(op), n.1)), env, out),
        Node::Call(callee, args) => match callee.0 {
            Node::Ident(name) => if name@ == display_name() {
                sem_display(args, 0, env, out, Seq::empty())
            } else {
                (Outcome::Failed((EvaluationError::FunctionNotFound(name), callee.1)), env, out)
            },
            _ => (Outcome::Value(Value::Null), env, out),
        },
        Node::While(cond, body) => {
            let (c, env1, out1) = sem(*cond, env, out);
            match c {
                Outcome::Value(v) => match v {
                    Value::Number(d) => if d.spec_is_positive() {
                        (Outcome::Forever(body), env1, out1)
                    } else {
                        (Outcome::Value(Value::Null), env1, out1)
                    },
                    Value::Boolean(b) => if b {
                        (Outcome::Forever(body), env1, out1)
                    } else {
                        (Outcome::Value(Value::Null), env1, out1)
                    },
                    Value::Range(a, b) => sem_repeat(body, range_count(a as int, b as int), env1, out1),
                    _ => (Outcome::Value(Value::Null), env1, out1),
                },
                _ => (c, env1, out1),
            }
        },
        Node::Variable(name, value) => {
            let (c, env1, out1) = sem(*value, env, out);
            match c {
                Outcome::Value(v) => (Outcome::Value(Value::Null), env1.insert(name@, v), out1),
                _ => (c, env1, out1),
            }
        },
    }
}

/// `display` from its `i`-th argument on, with `acc` the text of the earlier ones.
pub open spec fn sem_display(args: Vec<Spanned>, i: nat, env: Bindings, out: Lines, acc: Seq<char>) -> (
    Outcome,
    Bindings,
    Lines,
)
    decreases args, 0nat, args.len() - i,
{
    if i >= args.len() {
        (Outcome::Value(Value::Null), env, out.push(acc))
    } else {
        let (c, env1, out1) = sem(args[i as int], env, out);
        match c {
            Outcome::Value(v) => sem_display(args, i + 1, env1, out1, acc + v.spec_text()),
            _ => (c, env1, out1),
        }
    }
}

/// The statements of `stmts` from the `i`-th on, in order, up to the first that does not finish.
pub open spec fn sem_seq(stmts: Vec<Spanned>, i: nat, env: Bindings, out: Lines) -> (Outcome, Bindings, Lines)
    decreases stmts, 0nat, stmts.len() - i,
{
    if i >= stmts.len() {
        (Outcome::Value(Value::Null), env, out)
    } else {
        let (c, env1, out1) = sem(stmts[i as int], env, out);
        match c {
            Outcome::Value(_) => sem_seq(stmts, i + 1, env1, out1),
            _ => (c, env1, out1),
        }
    }
}

/// A loop body run `k` times, up to the first run that does not finish.
pub open spec fn sem_repeat(body: Vec<Spanned>, k: nat, env: Bindings, out: Lines) -> (Outcome, Bindings, Lines)
    decreases body, k + 1, 0nat,
{
    if k == 0 {
        (Outcome::Value(Value::Null), env, out)
    } else {
        let (c, env1, out1) = sem_seq(body, 0, env, out);
        match c {
            Outcome::Value(_) => sem_repeat(body, (k - 1) as nat, env1, out1),
            _ => (c, env1, out1),
        }
    }
}

fn is_display(name: &String) -> (r: bool)
    ensures
        r == (name@ == display_name()),
{
    proof {
        reveal_strlit("display");
    }
    let d = String::from_str("display");
    assert(d@ =~= display_name());
    *name == d
}

/// Evaluates `node`. Lines written by `display` are appended to `out`.
pub fn eval<'a>(node: &'a Spanned, env: &mut Environment, out: &mut Vec<String>) -> (r: Flow<'a>)
    requires
        old(env).wf(),
    ensures
        final(env).wf(),
        (r.model(), final(env)@, lines_of(final(out)@)) == sem(*node, old(env)@, lines_of(old(out)@)),
    decreases node, 0nat, 0nat,
{
    match &node.0 {
        Node::NumericLiteral(d) => Flow::Value(Value::Number(d.duplicate())),
        Node::StringLiteral(s) => Flow::Value(Value::String(s.clone())),
        Node::BooleanLiteral(b) => Flow::Value(Value::Boolean(*b)),
        Node::Range(a, b) => Flow::Value(Value::Range(*a, *b)),
        Node::Ident(name) => match env.get(name) {
            Some(v) => Flow::Value(v),
            None => Flow::Failed((EvaluationError::VariableNotFound(name.clone()), node.1)),
        },
        Node::Op(op) => Flow::Failed((EvaluationError::Unsupported(op.clone()), node.1)),
        Node::Call(callee, args) => match &callee.0 {
            Node::Ident(name) => {
                if is_display(name) {
                    eval_display(args, env, out)
                } else {
                    Flow::Failed((EvaluationError::FunctionNotFound(name.clone()), callee.1))
                }
            },
            _ => Flow::Value(Value::Null),
        },
        Node::While(cond, body) => {
            match eval(cond, env, out) {
                Flow::Value(v) => match v {
                    Value::Number(d) => {
                        if d.is_positive() {
                            Flow::Forever(body)
                        } else {
                            Flow::Value(Value::Null)
                        }
                    },
                    Value::Boolean(b) => {
                        if b {
                            Flow::Forever(body)
                        } else {
                            Flow::Value(Value::Null)
                        }
                    },
                    Value::Range(a, b) => eval_range(body, a, b, env, out),
                    _ => Flow::Value(Value::Null),
                },
                other => other,
            }
        },
        Node::Variable(name, value) => {
            match eval(value, env, out) {
                Flow::Value(v) => {
                    env.insert(name.clone(), v);
                    Flow::Value(Value::Null)
                },
                other => other,
            }
        },
    }
}

fn eval_display<'a>(args: &'a Vec<Spanned>, env: &mut Environment, out: &mut Vec<String>) -> (r: Flow<'a>)
    requires
        old(env).wf(),
    ensures
        final(env).wf(),
        (r.model(), final(env)@, lines_of(final(out)@)) == sem_display(
            *args,
            0,
            old(env)@,
            lines_of(old(out)@),
            Seq::empty(),
        ),
    decreases args, 1nat, 0nat,
{
    let ghost target = sem_display(*args, 0, env@, lines_of(out@), Seq::empty());
    let mut text = String::new();
    let mut i: usize = 0;
    while i < args.len()
        invariant
            env.wf(),
            i <= args@.len(),
            sem_display(*args, i as nat, env@, lines_of(out@), text@) == target,
            target == sem_display(*args, 0, old(env)@, lines_of(old(out)@), Seq::empty()),
        decreases args@.len() - i,
    {
        let f = eval(&args[i], env, out);
        match f {
            Flow::Value(v) => {
                text.append(v.to_string().as_str());
            },
            other => {
                return other;
            },
        }
        i = i + 1;
    }
    let ghost before = out@;
    out.push(text);
    proof {
        assert(lines_of(out@) =~= lines_of(before).push(text@));
    }
    Flow::Value(Value::Null)
}

/// Runs the statements of `body` once, in order, up to the first that does not finish.
pub fn eval_block<'a>(body: &'a Vec<Spanned>, env: &mut Environment, out: &mut Vec<String>) -> (r: Flow<'a>)
    requires
        old(env).wf(),
    ensures
        final(env).wf(),
        (r.model(), final(env)@, lines_of(final(out)@)) == sem_seq(
            *body,
            0,
            old(env)@,
            lines_of(old(out)@),
        ),
    decreases body, 1nat, 0nat,
{
    let ghost target = sem_seq(*body, 0, env@, lines_of(out@));
    let mut i: usize = 0;
    while i < body.len()
        invariant
            env.wf(),
            i <= body@.len(),
            sem_seq(*body, i as nat, env@, lines_of(out@)) == target,
            target == sem_seq(*body, 0, old(env)@, lines_of(old(out)@)),
        decreases body@.len() - i,
    {
        let f = eval(&body[i], env, out);
        match f {
            Flow::Value(_) => {},
            other => {
                return other;
            },
        }
        i = i + 1;
    }
    Flow::Value(Value::Null)
}

fn eval_range<'a>(body: &'a Vec<Spanned>, start: i64, end: i64, env: &mut Environment, out: &mut Vec<String>) -> (r: Flow<'a>)
    requires
        old(env).wf(),
    ensures
        final(env).wf(),
        (r.model(), final(env)@, lines_of(final(out)@)) == sem_repeat(
            *body,
            range_count(start as int, end as int),
            old(env)@,
            lines_of(old(out)@),
        ),
    decreases body, 2nat, 0nat,
{
    let ghost target = sem_repeat(*body, range_count(start as int, end as int), env@, lines_of(out@));
    let mut k: i64 = start;
    while k < end
        invariant
            env.wf(),
            start <= k,
            sem_repeat(*body, range_count(k as int, end as int), env@, lines_of(out@)) == target,
            target == sem_repeat(*body, range_count(start as int, end as int), old(env)@, lines_of(old(out)@)),
        decreases end - k,
    {
        let f = eval_block(body, env, out);
        match f {
            Flow::Value(_) => {},
            other => {
                return other;
            },
        }
        assert(range_count(k + 1, end as int) == (range_count(k as int, end as int) - 1) as nat);
        k = k + 1;
    }
    Flow::Value(Value::Null)
}

} // verus!
