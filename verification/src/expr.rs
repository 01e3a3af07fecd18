//! The expression tree and its evaluator and renderer.

use vstd::prelude::*;

verus! {

/// A prefix-notation arithmetic expression: an unsigned integer literal, a
/// sum, or a product. Trees are finite, fully formed and immutable.
#[derive(Debug, PartialEq, Eq)]
pub enum Expr {
    Num(u64),
    Add(Box<Expr>, Box<Expr>),
    Mul(Box<Expr>, Box<Expr>),
}

/// The value of an expression. Additions and multiplications wrap modulo
/// 2^64: evaluation is total and never panics, and agrees with ordinary
/// arithmetic whenever no intermediate result exceeds `u64::MAX`.
pub open spec fn eval_spec(e: Expr) -> u64
    decreases e,
{
    match e {
        Expr::Num(n) => n,
        Expr::Add(l, r) => vstd::wrapping::u64_specs::wrapping_add(eval_spec(*l), eval_spec(*r)),
        Expr::Mul(l, r) => vstd::wrapping::u64_specs::wrapping_mul(eval_spec(*l), eval_spec(*r)),
    }
}

/// Evaluate an expression tree to a single unsigned integer, wrapping on
/// overflow.
pub fn eval(e: &Expr) -> (r: u64)
    ensures
        r == eval_spec(*e),
    decreases *e,
{
    match e {
        Expr::Num(n) => *n,
        Expr::Add(l, r) => eval(l).wrapping_add(eval(r)),
        Expr::Mul(l, r) => eval(l).wrapping_mul(eval(r)),
    }
}

/// The decimal digit bytes of `n`, most significant first, with no leading
/// zero except for `n == 0` itself.
pub open spec fn dec_digits(n: nat) -> Seq<u8>
    decreases n,
{
    if n < 10 {
        seq![(48 + n) as u8]
    } else {
        dec_digits(n / 10).push((48 + n % 10) as u8)
    }
}

/// The prefix text of an expression: a literal renders as its decimal
/// digits, and an operator node renders as the operator byte, a space, the
/// left operand, a space, and the right operand.
pub open spec fn render_spec(e: Expr) -> Seq<u8>
    decreases e,
{
    match e {
        Expr::Num(n) => dec_digits(n as nat),
        Expr::Add(l, r) => seq![43u8, 32u8] + render_spec(*l) + seq![32u8] + render_spec(*r),
        Expr::Mul(l, r) => seq![42u8, 32u8] + render_spec(*l) + seq![32u8] + render_spec(*r),
    }
}

/// Append the decimal digits of `n` to `out`.
fn push_decimal(n: u64, out: &mut Vec<u8>)
    ensures
        final(out)@ == old(out)@ + dec_digits(n as nat),
    decreases n,
{
    if n < 10 {
        out.push((n as u8) + 48);
    } else {
        push_decimal(n / 10, out);
        out.push(((n % 10) as u8) + 48);
    }
    proof {
        assert(out@ =~= old(out)@ + dec_digits(n as nat));
    }
}

/// Append the prefix text of `e` to `out`.
fn push_render(e: &Expr, out: &mut Vec<u8>)
    ensures
        final(out)@ == old(out)@ + render_spec(*e),
    decreases *e,
{
    match e {
        Expr::Num(n) => {
            push_decimal(*n, out);
        },
        Expr::Add(l, r) => {
            out.push(43);
            out.push(32);
            push_render(l, out);
            out.push(32);
            push_render(r, out);
        },
        Expr::Mul(l, r) => {
            out.push(42);
            out.push(32);
            push_render(l, out);
            out.push(32);
            push_render(r, out);
        },
    }
    proof {
        assert(out@ =~= old(out)@ + render_spec(*e));
    }
}

/// Render an expression back to prefix text.
pub fn render(e: &Expr) -> (out: Vec<u8>)
    ensures
        out@ == render_spec(*e),
{
    let mut out: Vec<u8> = Vec::new();
    push_render(e, &mut out);
    proof {
        assert(out@ =~= render_spec(*e));
    }
    out
}

/// Adding two literals evaluates to their exact sum whenever that sum is
/// representable.
pub proof fn lemma_eval_add(e: Expr, a: u64, b: u64)
    requires
        e matches Expr::Add(l, r) && *l == Expr::Num(a) && *r == Expr::Num(b),
        a + b <= u64::MAX,
    ensures
        eval_spec(e) == a + b,
{
    reveal_with_fuel(eval_spec, 2);
}

/// Multiplying two literals evaluates to their exact product whenever that
/// product is representable.
pub proof fn lemma_eval_mul(e: Expr, a: u64, b: u64)
    requires
        e matches Expr::Mul(l, r) && *l == Expr::Num(a) && *r == Expr::Num(b),
        a * b <= u64::MAX,
    ensures
        eval_spec(e) == a * b,
{
    reveal_with_fuel(eval_spec, 2);
    vstd::arithmetic::div_mod::lemma_small_mod((a * b) as nat, 0x1_0000_0000_0000_0000);
}

} // verus!
