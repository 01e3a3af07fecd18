//! The prefix-notation parser and its specification.

use vstd::prelude::*;
use crate::expr::Expr;
use crate::expr::dec_digits;
use crate::expr::render_spec;

verus! {

/// Why a line failed to parse.
#[derive(Debug, Clone, Copy, PartialEq, Eq, Structural)]
pub enum ParseError {
    /// A digit run was found but its value does not fit in 64 bits.
    InvalidNumber,
    /// The next non-space byte is neither a digit nor `+`/`*`, or the input
    /// ended where an expression was required.
    UnexpectedToken,
}

/// ASCII decimal digit.
pub open spec fn is_digit(b: u8) -> bool {
    48 <= b && b <= 57
}

/// ASCII space.
pub open spec fn is_space(b: u8) -> bool {
    b == 32
}

/// One of the two operator bytes, `+` (43) or `*` (42).
pub open spec fn is_op(b: u8) -> bool {
    b == 43 || b == 42
}

/// Index of the first byte at or after `pos` that is not a space.
pub open spec fn skip_spaces(s: Seq<u8>, pos: int) -> int
    decreases s.len() - pos,
{
    if pos < s.len() && is_space(s[pos]) {
        skip_spaces(s, pos + 1)
    } else {
        pos
    }
}

/// Index just past the maximal run of digits starting at `pos`.
pub open spec fn digit_run_end(s: Seq<u8>, pos: int) -> int
    decreases s.len() - pos,
{
    if pos < s.len() && is_digit(s[pos]) {
        digit_run_end(s, pos + 1)
    } else {
        pos
    }
}

/// The numeric value of a sequence of decimal digit bytes.
pub open spec fn dec_value(digits: Seq<u8>) -> int
    decreases digits.len(),
{
    if digits.len() == 0 {
        0
    } else {
        dec_value(digits.drop_last()) * 10 + digits.last() - 48
    }
}

/// What a number parse yields at `pos`: the maximal digit run is consumed;
/// an empty run or a value above `u64::MAX` is an `InvalidNumber` failure.
pub open spec fn spec_parse_num(s: Seq<u8>, pos: int) -> Result<(Expr, int), ParseError> {
    let end = digit_run_end(s, pos);
    if end == pos {
        Err(ParseError::InvalidNumber)
    } else if dec_value(s.subrange(pos, end)) > u64::MAX {
        Err(ParseError::InvalidNumber)
    } else {
        Ok((Expr::Num(dec_value(s.subrange(pos, end)) as u64), end))
    }
}

/// How an executable parse step relates to its specification: same success
/// or failure, same tree, same resume position, same error.
pub open spec fn res_matches(
    r: Result<(Expr, usize), ParseError>,
    m: Result<(Expr, int), ParseError>,
) -> bool {
    match (r, m) {
        (Ok((e, p)), Ok((me, mp))) => e == me && p as int == mp,
        (Err(err), Err(merr)) => err == merr,
        _ => false,
    }
}

/// `skip_spaces` stays within the input, skips only spaces, and stops at
/// the first byte that is not one.
pub proof fn lemma_skip_spaces_props(s: Seq<u8>, pos: int)
    requires
        0 <= pos <= s.len(),
    ensures
        pos <= skip_spaces(s, pos) <= s.len(),
        forall|k: int| pos <= k < skip_spaces(s, pos) ==> is_space(s[k]),
        skip_spaces(s, pos) == s.len() || !is_space(s[skip_spaces(s, pos)]),
    decreases s.len() - pos,
{
    if pos < s.len() && is_space(s[pos]) {
        lemma_skip_spaces_props(s, pos + 1);
    }
}

/// Any position that the properties of `skip_spaces` describe is the one it
/// returns.
pub proof fn lemma_skip_spaces_agree(s: Seq<u8>, pos: int, q: int)
    requires
        0 <= pos <= q <= s.len(),
        forall|k: int| pos <= k < q ==> is_space(s[k]),
        q == s.len() || !is_space(s[q]),
    ensures
        skip_spaces(s, pos) == q,
    decreases q - pos,
{
    if pos < q {
        lemma_skip_spaces_agree(s, pos + 1, q);
    }
}

/// `digit_run_end` stays within the input, covers only digits, and stops at
/// the first byte that is not one.
pub proof fn lemma_digit_run_end_props(s: Seq<u8>, pos: int)
    requires
        0 <= pos <= s.len(),
    ensures
        pos <= digit_run_end(s, pos) <= s.len(),
        forall|k: int| pos <= k < digit_run_end(s, pos) ==> is_digit(s[k]),
        digit_run_end(s, pos) == s.len() || !is_digit(s[digit_run_end(s, pos)]),
    decreases s.len() - pos,
{
    if pos < s.len() && is_digit(s[pos]) {
        lemma_digit_run_end_props(s, pos + 1);
    }
}

/// Any position that the properties of `digit_run_end` describe is the one
/// it returns.
pub proof fn lemma_digit_run_end_agree(s: Seq<u8>, pos: int, q: int)
    requires
        0 <= pos <= q <= s.len(),
        forall|k: int| pos <= k < q ==> is_digit(s[k]),
        q == s.len() || !is_digit(s[q]),
    ensures
        digit_run_end(s, pos) == q,
    decreases q - pos,
{
    if pos < q {
        lemma_digit_run_end_agree(s, pos + 1, q);
    }
}

/// Consume the maximal run of decimal digits at `pos` and return the literal
/// it denotes together with the position just past the run. Fails with
/// `InvalidNumber` when no digit is present or the run's value does not fit
/// in 64 bits.
pub fn parse_num(input: &[u8], pos: usize) -> (r: Result<(Expr, usize), ParseError>)
    requires
        pos <= input@.len(),
    ensures
        res_matches(r, spec_parse_num(input@, pos as int)),
{
    let ghost s = input@;
    let len = input.len();
    let mut j = pos;
    let mut n: u64 = 0;
    let mut overflow = false;
    while j < len && 48 <= input[j] && input[j] <= 57
        invariant
            pos <= j <= len,
            len == s.len(),
            s == input@,
            forall|k: int| pos <= k < j ==> is_digit(s[k]),
            digit_run_end(s, pos as int) == digit_run_end(s, j as int),
            !overflow ==> n == dec_value(s.subrange(pos as int, j as int)),
            overflow ==> dec_value(s.subrange(pos as int, j as int)) > u64::MAX,
        decreases len - j,
    {
        let d = input[j] - 48;
        proof {
            assert(s.subrange(pos as int, j + 1).drop_last() =~= s.subrange(
                pos as int,
                j as int,
            ));
            assert(dec_value(s.subrange(pos as int, j + 1)) == dec_value(
                s.subrange(pos as int, j as int),
            ) * 10 + d);
        }
        if overflow {
        } else if n > (u64::MAX - d as u64) / 10 {
            proof {
                assert(n * 10 + d > u64::MAX) by {
                    assert(n >= (u64::MAX - d as u64) / 10 + 1);
                    assert(((u64::MAX - d as u64) / 10 + 1) * 10 > u64::MAX - d) by (nonlinear_arith);
                    assert(n * 10 >= ((u64::MAX - d as u64) / 10 + 1) * 10) by (nonlinear_arith)
                        requires
                            n >= (u64::MAX - d as u64) / 10 + 1,
                    ;
                };
            }
            overflow = true;
        } else {
            proof {
                assert(n * 10 + d <= u64::MAX) by {
                    assert(((u64::MAX - d as u64) / 10) * 10 <= u64::MAX - d) by (nonlinear_arith);
                    assert(n * 10 <= ((u64::MAX - d as u64) / 10) * 10) by (nonlinear_arith)
                        requires
                            0 <= n <= (u64::MAX - d as u64) / 10,
                    ;
                };
            }
            n = n * 10 + d as u64;
        }
        j = j + 1;
    }
    proof {
        lemma_digit_run_end_agree(s, j as int, j as int);
    }
    if j == pos {
        Err(ParseError::InvalidNumber)
    } else if overflow {
        Err(ParseError::InvalidNumber)
    } else {
        Ok((Expr::Num(n), j))
    }
}

/// What an expression parse yields at `pos`. Spaces are skipped first; a
/// digit starts a number, `+` or `*` starts an operator expression with two
/// sub-expressions, and anything else (or end of input) is an
/// `UnexpectedToken` failure. `fuel` only bounds the recursion depth; with
/// the fuel that [`parse_at`] supplies it is never exhausted.
pub open spec fn spec_parse_expr(s: Seq<u8>, pos: int, fuel: nat) -> Result<
    (Expr, int),
    ParseError,
>
    decreases fuel,
{
    if fuel == 0 {
        Err(ParseError::UnexpectedToken)
    } else {
        let p = skip_spaces(s, pos);
        if p < s.len() && is_digit(s[p]) {
            spec_parse_num(s, p)
        } else if p < s.len() && is_op(s[p]) {
            match spec_parse_expr(s, p + 1, (fuel - 1) as nat) {
                Ok((e1, p1)) => match spec_parse_expr(s, p1, (fuel - 1) as nat) {
                    Ok((e2, p2)) => if s[p] == 43 {
                        Ok((Expr::Add(Box::new(e1), Box::new(e2)), p2))
                    } else {
                        Ok((Expr::Mul(Box::new(e1), Box::new(e2)), p2))
                    },
                    Err(err) => Err(err),
                },
                Err(err) => Err(err),
            }
        } else {
            Err(ParseError::UnexpectedToken)
        }
    }
}

/// The parse of the input suffix that starts at `pos`: [`spec_parse_expr`]
/// with fuel for every remaining byte and one more step.
pub open spec fn parse_at(s: Seq<u8>, pos: int) -> Result<(Expr, int), ParseError> {
    spec_parse_expr(s, pos, (s.len() - pos + 1) as nat)
}

/// What an operator parse yields at `pos`: exactly one `+` or `*`, then two
/// sub-expressions in sequence.
pub open spec fn spec_parse_op(s: Seq<u8>, pos: int) -> Result<(Expr, int), ParseError> {
    if pos < s.len() && is_op(s[pos]) {
        match parse_at(s, pos + 1) {
            Ok((e1, p1)) => match parse_at(s, p1) {
                Ok((e2, p2)) => if s[pos] == 43 {
                    Ok((Expr::Add(Box::new(e1), Box::new(e2)), p2))
                } else {
                    Ok((Expr::Mul(Box::new(e1), Box::new(e2)), p2))
                },
                Err(err) => Err(err),
            },
            Err(err) => Err(err),
        }
    } else {
        Err(ParseError::UnexpectedToken)
    }
}

/// A successful parse consumes at least one byte beyond the skipped spaces,
/// stays within the input, and never stops right before a digit.
pub proof fn lemma_parse_progress(s: Seq<u8>, pos: int, fuel: nat)
    requires
        0 <= pos <= s.len(),
    ensures
        spec_parse_expr(s, pos, fuel) matches Ok((e, end)) ==> skip_spaces(s, pos) < end
            <= s.len() && (end == s.len() || !is_digit(s[end])),
    decreases fuel,
{
    lemma_skip_spaces_props(s, pos);
    if fuel > 0 {
        let p = skip_spaces(s, pos);
        if p < s.len() && is_digit(s[p]) {
            lemma_digit_run_end_props(s, p);
        } else if p < s.len() && is_op(s[p]) {
            lemma_parse_progress(s, p + 1, (fuel - 1) as nat);
            match spec_parse_expr(s, p + 1, (fuel - 1) as nat) {
                Ok(r1) => {
                    let p1 = r1.1;
                    lemma_skip_spaces_props(s, p + 1);
                    lemma_parse_progress(s, p1, (fuel - 1) as nat);
                    lemma_skip_spaces_props(s, p1);
                },
                Err(_) => {},
            }
        }
    }
}

/// Any fuel that covers the remaining bytes gives the canonical parse.
pub proof fn lemma_parse_fuel(s: Seq<u8>, pos: int, fuel: nat)
    requires
        0 <= pos <= s.len(),
        fuel >= s.len() - pos + 1,
    ensures
        spec_parse_expr(s, pos, fuel) == parse_at(s, pos),
    decreases fuel,
{
    let fc = (s.len() - pos + 1) as nat;
    lemma_skip_spaces_props(s, pos);
    let p = skip_spaces(s, pos);
    if p < s.len() && is_op(s[p]) {
        lemma_parse_fuel(s, p + 1, (fuel - 1) as nat);
        lemma_parse_fuel(s, p + 1, (fc - 1) as nat);
        lemma_parse_progress(s, p + 1, (fuel - 1) as nat);
        match spec_parse_expr(s, p + 1, (fuel - 1) as nat) {
            Ok(r1) => {
                let p1 = r1.1;
                lemma_skip_spaces_props(s, p + 1);
                lemma_parse_fuel(s, p1, (fuel - 1) as nat);
                lemma_parse_fuel(s, p1, (fc - 1) as nat);
            },
            Err(_) => {},
        }
    }
}

/// A leading space does not change what is parsed.
pub proof fn lemma_parse_space(s: Seq<u8>, pos: int)
    requires
        0 <= pos < s.len(),
        is_space(s[pos]),
    ensures
        parse_at(s, pos) == parse_at(s, pos + 1),
{
    let fuel = (s.len() - pos + 1) as nat;
    lemma_parse_fuel(s, pos + 1, fuel);
    assert(skip_spaces(s, pos) == skip_spaces(s, pos + 1));
    lemma_skip_spaces_props(s, pos);
    let p = skip_spaces(s, pos);
    if p < s.len() && is_op(s[p]) {
        lemma_parse_fuel(s, p + 1, (fuel - 1) as nat);
        lemma_parse_fuel(s, p + 1, (fuel - 2) as nat);
        lemma_parse_progress(s, p + 1, (fuel - 1) as nat);
        match spec_parse_expr(s, p + 1, (fuel - 1) as nat) {
            Ok(r1) => {
                let p1 = r1.1;
                lemma_skip_spaces_props(s, p + 1);
                lemma_parse_fuel(s, p1, (fuel - 1) as nat);
                lemma_parse_fuel(s, p1, (fuel - 2) as nat);
            },
            Err(_) => {},
        }
    }
}

/// At a position holding `+` or `*`, the expression parse is exactly the
/// operator parse.
pub proof fn lemma_parse_at_op(s: Seq<u8>, p: int)
    requires
        0 <= p < s.len(),
        is_op(s[p]),
    ensures
        parse_at(s, p) == spec_parse_op(s, p),
{
    let fuel = (s.len() - p + 1) as nat;
    assert(skip_spaces(s, p) == p);
    lemma_parse_fuel(s, p + 1, (fuel - 1) as nat);
    lemma_parse_progress(s, p + 1, (fuel - 1) as nat);
    match spec_parse_expr(s, p + 1, (fuel - 1) as nat) {
        Ok(r1) => {
            let p1 = r1.1;
            lemma_skip_spaces_props(s, p + 1);
            lemma_parse_fuel(s, p1, (fuel - 1) as nat);
        },
        Err(_) => {},
    }
}

/// The decimal text of a number is non-empty and consists of digits only.
pub proof fn lemma_dec_digits_are_digits(n: nat)
    ensures
        dec_digits(n).len() >= 1,
        forall|k: int| 0 <= k < dec_digits(n).len() ==> is_digit(dec_digits(n)[k]),
    decreases n,
{
    if n >= 10 {
        lemma_dec_digits_are_digits(n / 10);
    }
}

/// The decimal digits of `n` denote `n`.
pub proof fn lemma_dec_digits_value(n: nat)
    ensures
        dec_value(dec_digits(n)) == n,
    decreases n,
{
    assert(dec_value(Seq::<u8>::empty()) == 0);
    if n < 10 {
        assert(dec_digits(n).drop_last() =~= Seq::<u8>::empty());
    } else {
        lemma_dec_digits_value(n / 10);
        assert(dec_digits(n).drop_last() =~= dec_digits(n / 10));
    }
}

/// Parsing the decimal text of any representable integer yields exactly
/// that literal and consumes the whole text.
pub proof fn lemma_parse_num_decimal(n: u64)
    ensures
        spec_parse_num(dec_digits(n as nat), 0) == Ok::<(Expr, int), ParseError>(
            (Expr::Num(n), dec_digits(n as nat).len() as int),
        ),
{
    let s = dec_digits(n as nat);
    lemma_dec_digits_are_digits(n as nat);
    lemma_digit_run_end_agree(s, 0, s.len() as int);
    assert(s.subrange(0, s.len() as int) =~= s);
    lemma_dec_digits_value(n as nat);
}

/// A successful parse depends only on the bytes it consumed and on whether
/// a digit follows them: the same bytes, placed in any input with no digit
/// immediately after, parse to the same tree.
pub proof fn lemma_parse_frame(s: Seq<u8>, s2: Seq<u8>, pos: int, pos2: int, e: Expr, end: int)
    requires
        0 <= pos <= s.len(),
        0 <= pos2 <= s2.len(),
        parse_at(s, pos) == Ok::<(Expr, int), ParseError>((e, end)),
        pos2 + (end - pos) <= s2.len(),
        s2.subrange(pos2, pos2 + (end - pos)) == s.subrange(pos, end),
        pos2 + (end - pos) == s2.len() || !is_digit(s2[pos2 + (end - pos)]),
    ensures
        parse_at(s2, pos2) == Ok::<(Expr, int), ParseError>((e, pos2 + (end - pos))),
    decreases e, 1int,
{
    let fuel = (s.len() - pos + 1) as nat;
    let end2 = pos2 + (end - pos);
    lemma_parse_progress(s, pos, fuel);
    lemma_skip_spaces_props(s, pos);
    let p = skip_spaces(s, pos);
    assert(forall|k2: int| pos2 <= k2 < end2 ==> s2[k2] == s[pos + (k2 - pos2)]) by {
        assert(forall|k2: int|
            pos2 <= k2 < end2 ==> s2[k2] == s2.subrange(pos2, end2)[k2 - pos2]);
    }
    let p2 = pos2 + (p - pos);
    lemma_skip_spaces_agree(s2, pos2, p2);
    assert(skip_spaces(s2, pos2) == p2);
    match e {
        Expr::Num(v) => {
            lemma_digit_run_end_props(s, p);
            assert(digit_run_end(s, p) == end);
            lemma_digit_run_end_agree(s2, p2, end2);
            assert(s2.subrange(p2, end2) =~= s.subrange(p, end));
        },
        Expr::Add(l, r) => {
            lemma_parse_frame_op(s, s2, pos, pos2, e, end, *l, *r);
        },
        Expr::Mul(l, r) => {
            lemma_parse_frame_op(s, s2, pos, pos2, e, end, *l, *r);
        },
    }
}

/// The operator-node case of [`lemma_parse_frame`].
proof fn lemma_parse_frame_op(
    s: Seq<u8>,
    s2: Seq<u8>,
    pos: int,
    pos2: int,
    e: Expr,
    end: int,
    el: Expr,
    er: Expr,
)
    requires
        0 <= pos <= s.len(),
        0 <= pos2 <= s2.len(),
        parse_at(s, pos) == Ok::<(Expr, int), ParseError>((e, end)),
        pos2 + (end - pos) <= s2.len(),
        s2.subrange(pos2, pos2 + (end - pos)) == s.subrange(pos, end),
        pos2 + (end - pos) == s2.len() || !is_digit(s2[pos2 + (end - pos)]),
        (e matches Expr::Add(l, r) && *l == el && *r == er) || (e matches Expr::Mul(l, r) && *l
            == el && *r == er),
    ensures
        parse_at(s2, pos2) == Ok::<(Expr, int), ParseError>((e, pos2 + (end - pos))),
    decreases e, 0int,
{
    let fuel = (s.len() - pos + 1) as nat;
    let fuel2 = (s2.len() - pos2 + 1) as nat;
    let end2 = pos2 + (end - pos);
    lemma_parse_progress(s, pos, fuel);
    lemma_skip_spaces_props(s, pos);
    let p = skip_spaces(s, pos);
    assert(forall|k2: int| pos2 <= k2 < end2 ==> s2[k2] == s[pos + (k2 - pos2)]) by {
        assert(forall|k2: int|
            pos2 <= k2 < end2 ==> s2[k2] == s2.subrange(pos2, end2)[k2 - pos2]);
    }
    let p2 = pos2 + (p - pos);
    lemma_skip_spaces_agree(s2, pos2, p2);
    // The parse succeeded with an operator node, so the dispatch byte is an
    // operator and both sub-parses succeeded.
    assert(p < s.len() && is_op(s[p]));
    lemma_parse_fuel(s, p + 1, (fuel - 1) as nat);
    lemma_parse_progress(s, p + 1, (fuel - 1) as nat);
    match spec_parse_expr(s, p + 1, (fuel - 1) as nat) {
        Ok(r1) => {
            let p1 = r1.1;
            lemma_skip_spaces_props(s, p + 1);
            lemma_parse_fuel(s, p1, (fuel - 1) as nat);
            lemma_parse_progress(s, p1, (fuel - 1) as nat);
            lemma_skip_spaces_props(s, p1);
            assert(r1.0 == el);
            assert(p1 < end);
            let q1 = pos2 + (p1 - pos);
            assert(s2.subrange(p2 + 1, q1) =~= s.subrange(p + 1, p1));
            assert(s2[q1] == s[p1] && !is_digit(s[p1]));
            lemma_parse_frame(s, s2, p + 1, p2 + 1, el, p1);
            assert(parse_at(s2, p2 + 1) == Ok::<(Expr, int), ParseError>((el, q1)));
            assert(s2.subrange(q1, end2) =~= s.subrange(p1, end));
            lemma_parse_frame(s, s2, p1, q1, er, end);
            assert(parse_at(s2, q1) == Ok::<(Expr, int), ParseError>((er, end2)));
            lemma_parse_fuel(s2, p2 + 1, (fuel2 - 1) as nat);
            lemma_parse_fuel(s2, q1, (fuel2 - 1) as nat);
        },
        Err(_) => {
            assert(false);
        },
    }
}

/// Prefixing two fully parsed texts with `+ ` or `* ` and a separating
/// space parses to the matching operator node over their two trees,
/// consuming the whole text.
pub proof fn lemma_parse_op_prefix(op: u8, t1: Seq<u8>, e1: Expr, t2: Seq<u8>, e2: Expr)
    requires
        is_op(op),
        parse_at(t1, 0) == Ok::<(Expr, int), ParseError>((e1, t1.len() as int)),
        parse_at(t2, 0) == Ok::<(Expr, int), ParseError>((e2, t2.len() as int)),
    ensures
        ({
            let s = seq![op, 32u8] + t1 + seq![32u8] + t2;
            parse_at(s, 0) == Ok::<(Expr, int), ParseError>(
                (
                    if op == 43 {
                        Expr::Add(Box::new(e1), Box::new(e2))
                    } else {
                        Expr::Mul(Box::new(e1), Box::new(e2))
                    },
                    s.len() as int,
                ),
            )
        }),
{
    let s = seq![op, 32u8] + t1 + seq![32u8] + t2;
    let mid = 2 + t1.len() as int;
    let fuel = (s.len() + 1) as nat;
    assert(s.subrange(2, mid) =~= t1.subrange(0, t1.len() as int));
    assert(t1.subrange(0, t1.len() as int) =~= t1);
    lemma_parse_frame(t1, s, 0, 2, e1, t1.len() as int);
    lemma_parse_space(s, 1);
    assert(s.subrange(mid + 1, s.len() as int) =~= t2.subrange(0, t2.len() as int));
    assert(t2.subrange(0, t2.len() as int) =~= t2);
    lemma_parse_frame(t2, s, 0, mid + 1, e2, t2.len() as int);
    lemma_parse_space(s, mid);
    assert(skip_spaces(s, 0) == 0);
    lemma_parse_fuel(s, 1, (fuel - 1) as nat);
    lemma_parse_fuel(s, mid, (fuel - 1) as nat);
}

/// Round trip: rendering an expression back to prefix text and reparsing
/// that text yields the identical tree, with the whole text consumed.
pub proof fn lemma_render_parse_round_trip(e: Expr)
    ensures
        parse_at(render_spec(e), 0) == Ok::<(Expr, int), ParseError>(
            (e, render_spec(e).len() as int),
        ),
    decreases e,
{
    let s = render_spec(e);
    match e {
        Expr::Num(v) => {
            lemma_parse_num_decimal(v);
            lemma_dec_digits_are_digits(v as nat);
            assert(skip_spaces(s, 0) == 0);
        },
        Expr::Add(l, r) => {
            lemma_render_parse_round_trip(*l);
            lemma_render_parse_round_trip(*r);
            lemma_parse_op_prefix(43, render_spec(*l), *l, render_spec(*r), *r);
            assert(seq![43u8, 32u8] + render_spec(*l) + seq![32u8] + render_spec(*r) =~= s);
        },
        Expr::Mul(l, r) => {
            lemma_render_parse_round_trip(*l);
            lemma_render_parse_round_trip(*r);
            lemma_parse_op_prefix(42, render_spec(*l), *l, render_spec(*r), *r);
            assert(seq![42u8, 32u8] + render_spec(*l) + seq![32u8] + render_spec(*r) =~= s);
        },
    }
}

/// Consume exactly one operator byte at `pos`, then two sub-expressions in
/// sequence, and combine them into an `Add` or `Mul` node. Any other byte
/// (or end of input) fails with `UnexpectedToken`; a failing sub-expression
/// parse is propagated.
pub fn parse_op(input: &[u8], pos: usize) -> (r: Result<(Expr, usize), ParseError>)
    requires
        pos <= input@.len(),
    ensures
        res_matches(r, spec_parse_op(input@, pos as int)),
    decreases input@.len() - pos, 0int,
{
    let len = input.len();
    if pos < len && (input[pos] == 43 || input[pos] == 42) {
        let op = input[pos];
        proof {
            lemma_parse_progress(
                input@,
                pos + 1,
                (input@.len() - (pos + 1) + 1) as nat,
            );
            lemma_skip_spaces_props(input@, pos + 1);
        }
        match parse_expr(input, pos + 1) {
            Ok((e1, p1)) => {
                proof {
                    lemma_parse_progress(input@, p1 as int, (input@.len() - p1 + 1) as nat);
                    lemma_skip_spaces_props(input@, p1 as int);
                }
                match parse_expr(input, p1) {
                    Ok((e2, p2)) => {
                        if op == 43 {
                            Ok((Expr::Add(Box::new(e1), Box::new(e2)), p2))
                        } else {
                            Ok((Expr::Mul(Box::new(e1), Box::new(e2)), p2))
                        }
                    },
                    Err(err) => Err(err),
                }
            },
            Err(err) => Err(err),
        }
    } else {
        Err(ParseError::UnexpectedToken)
    }
}

/// Parse one expression at `pos`: skip leading spaces, then parse a number
/// if a digit follows, an operator expression if `+` or `*` follows, and
/// fail with `UnexpectedToken` otherwise.
pub fn parse_expr(input: &[u8], pos: usize) -> (r: Result<(Expr, usize), ParseError>)
    requires
        pos <= input@.len(),
    ensures
        res_matches(r, parse_at(input@, pos as int)),
    decreases input@.len() - pos, 1int,
{
    let ghost s = input@;
    let len = input.len();
    let mut p = pos;
    while p < len && input[p] == 32
        invariant
            pos <= p <= len,
            len == s.len(),
            s == input@,
            parse_at(s, pos as int) == parse_at(s, p as int),
        decreases len - p,
    {
        proof {
            lemma_parse_space(s, p as int);
        }
        p = p + 1;
    }
    if p < len && 48 <= input[p] && input[p] <= 57 {
        proof {
            assert(skip_spaces(s, p as int) == p as int);
        }
        parse_num(input, p)
    } else if p < len && (input[p] == 43 || input[p] == 42) {
        proof {
            lemma_parse_at_op(s, p as int);
        }
        parse_op(input, p)
    } else {
        proof {
            assert(skip_spaces(s, p as int) == p as int);
        }
        Err(ParseError::UnexpectedToken)
    }
}

/// Parse a whole input line into an expression tree. Leftover trailing text
/// after a complete expression is ignored, as in an interactive calculator
/// that reads one expression per line.
pub fn parse(input: &[u8]) -> (r: Result<Expr, ParseError>)
    ensures
        parse_at(input@, 0) matches Ok((e, end)) ==> r == Ok::<Expr, ParseError>(e),
        parse_at(input@, 0) matches Err(err) ==> r == Err::<Expr, ParseError>(err),
{
    match parse_expr(input, 0) {
        Ok((e, _)) => Ok(e),
        Err(err) => Err(err),
    }
}

} // verus!
