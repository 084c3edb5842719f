//! Pure integer semantics of the core language: checked integer arithmetic,
//! negation and absolute value, list index resolution, slice-bound clamping
//! and the length and elements of `range(start, end, step)`.
//!
//! Every function here is a pure function over machine integers, specified
//! against exact (mathematical) integer arithmetic.

use vstd::prelude::*;

verus! {

/// Integer arithmetic operators.
#[derive(Clone, Copy, Debug, PartialEq, Eq, Structural)]
pub enum IntOp {
    Add,
    Sub,
    Mul,
    Div,
    Mod,
}

/// Why an integer operation has no result.
#[derive(Clone, Copy, Debug, PartialEq, Eq, Structural)]
pub enum IntArithError {
    DivisionByZero,
    Overflow,
}

/// A canonical hash key for a number: integers (and integral floats in
/// `i64` range) key as the integer, other floats by their bits.
#[derive(Clone, Copy, Debug, PartialEq, Eq, Structural)]
pub enum NumKey {
    Int(i64),
    FloatBits(u64),
}

/// Whether `x` is representable as an `i64`.
pub open spec fn fits_i64(x: int) -> bool {
    i64::MIN <= x <= i64::MAX
}

/// Absolute value over the integers.
pub open spec fn abs_int(x: int) -> int {
    if x < 0 { -x } else { x }
}

/// Division truncated toward zero (Rust's `/`), for a nonzero divisor.
pub open spec fn trunc_div(a: int, b: int) -> int {
    if a >= 0 && b > 0 {
        a / b
    } else if a < 0 && b < 0 {
        (-a) / (-b)
    } else if a < 0 {
        -((-a) / b)
    } else {
        -(a / (-b))
    }
}

/// The remainder of [`trunc_div`] (Rust's `%`): `a - b * trunc_div(a, b)`.
pub open spec fn trunc_rem(a: int, b: int) -> int {
    a - b * trunc_div(a, b)
}

/// The exact result of `op` on `a` and `b` over the integers (for `Div` and
/// `Mod`, truncated toward zero; meaningful for a nonzero `b`).
pub open spec fn exact_arith(op: IntOp, a: int, b: int) -> int {
    match op {
        IntOp::Add => a + b,
        IntOp::Sub => a - b,
        IntOp::Mul => a * b,
        IntOp::Div => trunc_div(a, b),
        IntOp::Mod => trunc_rem(a, b),
    }
}

/// What `int_arith(op, a, b)` returns: a zero divisor of `Div`/`Mod` is
/// `DivisionByZero`; otherwise the exact result when it fits in `i64`, and
/// `Overflow` when it does not.
pub open spec fn int_arith_spec(op: IntOp, a: i64, b: i64) -> Result<i64, IntArithError> {
    if (op == IntOp::Div || op == IntOp::Mod) && b == 0 {
        Err(IntArithError::DivisionByZero)
    } else if fits_i64(exact_arith(op, a as int, b as int)) {
        Ok(exact_arith(op, a as int, b as int) as i64)
    } else {
        Err(IntArithError::Overflow)
    }
}

/// Rust's remainder written case by case on the signs of its operands.
pub open spec fn rem_by_signs(x: int, d: int) -> int {
    if x == 0 {
        0
    } else if x > 0 && d > 0 {
        x % d
    } else if x < 0 && d < 0 {
        -((-x) % (-d))
    } else if x < 0 {
        -((-x) % d)
    } else {
        x % (-d)
    }
}

proof fn lemma_trunc_div_bounds(a: int, b: int)
    requires
        b != 0,
    ensures
        abs_int(trunc_rem(a, b)) < abs_int(b),
        trunc_rem(a, b) == 0 || (trunc_rem(a, b) < 0) == (a < 0),
        trunc_rem(a, b) == rem_by_signs(a, b),
{
    let q = trunc_div(a, b);
    if a >= 0 && b > 0 {
        vstd::arithmetic::div_mod::lemma_fundamental_div_mod(a, b);
    } else if a < 0 && b < 0 {
        vstd::arithmetic::div_mod::lemma_fundamental_div_mod(-a, -b);
        assert(b * q == -((-b) * q)) by (nonlinear_arith);
    } else if a < 0 {
        vstd::arithmetic::div_mod::lemma_fundamental_div_mod(-a, b);
        let q1 = (-a) / b;
        assert(b * q == -(b * q1)) by (nonlinear_arith)
            requires q == -q1;
    } else {
        vstd::arithmetic::div_mod::lemma_fundamental_div_mod(a, -b);
        let q1 = a / (-b);
        assert(b * q == (-b) * q1) by (nonlinear_arith)
            requires q == -q1;
    }
}

/// Checked integer arithmetic: never panics; `Ok(r)` exactly when the
/// mathematical result is an integer in `i64` range (`Div`/`Mod` truncate
/// toward zero, as Rust does), and then `r` is that result; a zero divisor
/// is `DivisionByZero`, any other out-of-range result `Overflow`.
pub fn int_arith(op: IntOp, a: i64, b: i64) -> (r: Result<i64, IntArithError>)
    ensures
        r == int_arith_spec(op, a, b),
{
    let r = match op {
        IntOp::Add => match a.checked_add(b) {
            Some(v) => Ok(v),
            None => Err(IntArithError::Overflow),
        },
        IntOp::Sub => match a.checked_sub(b) {
            Some(v) => Ok(v),
            None => Err(IntArithError::Overflow),
        },
        IntOp::Mul => match a.checked_mul(b) {
            Some(v) => Ok(v),
            None => Err(IntArithError::Overflow),
        },
        IntOp::Div => {
            if b == 0 {
                Err(IntArithError::DivisionByZero)
            } else {
                match a.checked_div(b) {
                    Some(v) => Ok(v),
                    None => Err(IntArithError::Overflow),
                }
            }
        },
        IntOp::Mod => {
            if b == 0 {
                Err(IntArithError::DivisionByZero)
            } else if b == -1 {
                // The remainder by -1 is always 0, even for `i64::MIN`, whose
                // quotient by -1 does not fit.
                proof {
                    assert(trunc_div(a as int, -1) == -(a as int)) by {
                        if a < 0 {
                            assert((-(a as int)) / 1 == -(a as int));
                        } else {
                            assert((a as int) / 1 == a as int);
                        }
                    }
                }
                assert(trunc_rem(a as int, b as int) == 0);
                Ok(0)
            } else {
                proof {
                    lemma_trunc_div_bounds(a as int, b as int);
                }
                assert(fits_i64(trunc_rem(a as int, b as int)));
                match a.checked_rem(b) {
                    Some(v) => {
                        assert(v == trunc_rem(a as int, b as int));
                        Ok(v)
                    },
                    None => Err(IntArithError::Overflow),
                }
            }
        },
    };
    assert(op == IntOp::Add ==> r == int_arith_spec(op, a, b));
    assert(op == IntOp::Sub ==> r == int_arith_spec(op, a, b));
    assert(op == IntOp::Mul ==> r == int_arith_spec(op, a, b));
    assert(op == IntOp::Div ==> r == int_arith_spec(op, a, b));
    assert(op == IntOp::Mod ==> r == int_arith_spec(op, a, b));
    r
}

/// Checked integer negation: `-i64::MIN` is not representable.
pub fn int_neg(a: i64) -> (r: Result<i64, IntArithError>)
    ensures
        r == (if a == i64::MIN { Err(IntArithError::Overflow) } else { Ok((-a) as i64) }),
{
    if a == i64::MIN {
        Err(IntArithError::Overflow)
    } else {
        Ok(-a)
    }
}

/// Checked absolute value: `abs(i64::MIN)` is not representable.
pub fn int_abs(a: i64) -> (r: Result<i64, IntArithError>)
    ensures
        r == (if a == i64::MIN {
            Err(IntArithError::Overflow)
        } else {
            Ok(abs_int(a as int) as i64)
        }),
{
    if a == i64::MIN {
        Err(IntArithError::Overflow)
    } else if a < 0 {
        Ok(-a)
    } else {
        Ok(a)
    }
}

/// The slot a possibly-negative index addresses in a list of length `len`:
/// `i` itself, or `len + i` for a negative `i`.
pub open spec fn wanted_index(len: int, i: int) -> int {
    if i < 0 { len + i } else { i }
}

/// Resolve a possibly-negative list index against a list of length `len`:
/// `i >= 0` addresses `i`, `i < 0` addresses `len + i`; `None` when that
/// slot is outside `0..len`.
pub fn resolve_index(len: usize, i: i64) -> (r: Option<usize>)
    ensures
        r == (if 0 <= wanted_index(len as int, i as int) < len {
            Some(wanted_index(len as int, i as int) as usize)
        } else {
            None::<usize>
        }),
{
    if i < 0 {
        let back: u64 = if i == i64::MIN { 0x8000_0000_0000_0000u64 } else { (-i) as u64 };
        if back > len as u64 {
            return None;
        }
        let k = len - back as usize;
        if k < len { Some(k) } else { None }
    } else {
        if i as u64 >= len as u64 {
            None
        } else {
            Some(i as usize)
        }
    }
}

/// Clamp a possibly-negative slice bound into `0..=len`: the resolved bound
/// (`i`, or `len + i` for a negative `i`) clamped to `0` and `len`.
pub fn clamp_slice_bound(len: usize, i: i64) -> (r: usize)
    ensures
        r as int == (if wanted_index(len as int, i as int) < 0 {
            0
        } else if wanted_index(len as int, i as int) > len {
            len as int
        } else {
            wanted_index(len as int, i as int)
        }),
{
    if i < 0 {
        let back: u64 = if i == i64::MIN { 0x8000_0000_0000_0000u64 } else { (-i) as u64 };
        if back > len as u64 {
            0
        } else {
            len - back as usize
        }
    } else if i as u64 >= len as u64 {
        len
    } else {
        i as usize
    }
}

/// A non-negative index strictly below `len`, or `None`. For containers
/// that do not accept negative indices.
pub fn checked_index(len: usize, i: i64) -> (r: Option<usize>)
    ensures
        r == (if 0 <= i < len { Some(i as usize) } else { None::<usize> }),
{
    if i >= 0 && (i as u64) < (len as u64) {
        Some(i as usize)
    } else {
        None
    }
}

/// Whether progression element `x` still lies before `end`: below it for a
/// positive step, above it for a negative one.
pub open spec fn before_end(x: int, end: int, step: int) -> bool {
    if step > 0 { x < end } else { x > end }
}

/// The number of elements of `range(start, end, step)` (nonzero `step`):
/// the ceiling of the distance to cover divided by the step's magnitude.
pub open spec fn range_count(start: int, end: int, step: int) -> int {
    if step > 0 {
        if end <= start { 0 } else { (end - start - 1) / step + 1 }
    } else {
        if start <= end { 0 } else { (start - end - 1) / (-step) + 1 }
    }
}

/// The count is exactly the number of progression elements before `end`:
/// the last counted element lies before `end`, and the next one does not.
pub proof fn lemma_range_count_is_exact(start: int, end: int, step: int)
    requires
        step != 0,
    ensures
        range_count(start, end, step) >= 0,
        range_count(start, end, step) > 0 ==> before_end(
            start + (range_count(start, end, step) - 1) * step,
            end,
            step,
        ),
        !before_end(start + range_count(start, end, step) * step, end, step),
{
    let n = range_count(start, end, step);
    if step > 0 {
        if end > start {
            let d = end - start - 1;
            vstd::arithmetic::div_mod::lemma_fundamental_div_mod(d, step);
            vstd::arithmetic::div_mod::lemma_div_pos_is_pos(d, step);
            let q = d / step;
            let r = d % step;
            assert(n == q + 1);
            assert((n - 1) * step == q * step) by (nonlinear_arith)
                requires n == q + 1;
            assert(n * step == q * step + step) by (nonlinear_arith)
                requires n == q + 1;
            assert(q * step == step * q) by (nonlinear_arith);
        }
    } else {
        if start > end {
            let s = -step;
            let d = start - end - 1;
            vstd::arithmetic::div_mod::lemma_fundamental_div_mod(d, s);
            vstd::arithmetic::div_mod::lemma_div_pos_is_pos(d, s);
            let q = d / s;
            assert(n == q + 1);
            assert((n - 1) * step == -(q * s)) by (nonlinear_arith)
                requires n == q + 1, s == -step;
            assert(n * step == -(q * s) - s) by (nonlinear_arith)
                requires n == q + 1, s == -step;
            assert(q * s == s * q) by (nonlinear_arith);
        }
    }
}

/// The number of elements of `range(start, end, step)`: how many of
/// `start`, `start + step`, `start + 2*step`, ... lie before `end`. Exact
/// for every input; the count can exceed `i64::MAX`.
pub fn range_len(start: i64, end: i64, step: i64) -> (n: u64)
    requires
        step != 0,
    ensures
        n as int == range_count(start as int, end as int, step as int),
{
    let span: u64;
    let mag: u64;
    if step > 0 {
        if end <= start {
            return 0;
        }
        span = (end as i128 - start as i128) as u64;
        mag = step as u64;
    } else {
        if start <= end {
            return 0;
        }
        span = (start as i128 - end as i128) as u64;
        mag = if step == i64::MIN { 0x8000_0000_0000_0000u64 } else { (-step) as u64 };
    }
    proof {
        vstd::arithmetic::div_mod::lemma_div_is_ordered_by_denominator((span - 1) as int, 1, mag as int);
        assert(((span - 1) as int) / 1 == span - 1);
        vstd::arithmetic::div_mod::lemma_div_pos_is_pos((span - 1) as int, mag as int);
    }
    (span - 1) / mag + 1
}

/// Element `k` of `range(start, end, step)`: exactly `start + k * step`.
/// Every element before `end` is an `i64` (see
/// [`lemma_progression_element_fits`]), which is what this requires.
pub fn range_nth(start: i64, step: i64, k: u64) -> (x: i64)
    requires
        fits_i64(start + k * step),
    ensures
        x as int == start + k * step,
{
    proof {
        assert((k as i128) * (step as i128) == k * step) by (nonlinear_arith)
            requires k < 0x1_0000_0000_0000_0000int, -0x8000_0000_0000_0000int <= step < 0x8000_0000_0000_0000int;
    }
    let prod: i128 = (k as i128) * (step as i128);
    (start as i128 + prod) as i64
}

/// Every element of a range, `start + k * step` for `k < range_len(...)`,
/// is an `i64`: the precondition of [`range_nth`] holds for each of them.
pub proof fn lemma_progression_element_fits(start: i64, end: i64, step: i64, k: int)
    requires
        step != 0,
        0 <= k < range_count(start as int, end as int, step as int),
    ensures
        fits_i64(start + k * step),
        before_end(start + k * step, end as int, step as int),
{
    lemma_range_count_is_exact(start as int, end as int, step as int);
    let n = range_count(start as int, end as int, step as int);
    if step > 0 {
        assert(k * step <= (n - 1) * step) by (nonlinear_arith)
            requires 0 <= k <= n - 1, step > 0;
        assert(k * step >= 0) by (nonlinear_arith)
            requires k >= 0, step > 0;
    } else {
        assert(k * step >= (n - 1) * step) by (nonlinear_arith)
            requires 0 <= k <= n - 1, step < 0;
        assert(k * step <= 0) by (nonlinear_arith)
            requires k >= 0, step < 0;
    }
}

/// `int_arith` agrees with exact arithmetic for `+`, `-` and `*`: it
/// succeeds exactly when the true result fits in `i64`, returns that result,
/// and never reports a zero divisor.
pub proof fn law_int_arith_is_exact(op: IntOp, a: i64, b: i64)
    requires
        op == IntOp::Add || op == IntOp::Sub || op == IntOp::Mul,
    ensures
        match int_arith_spec(op, a, b) {
            Ok(r) => r as int == exact_arith(op, a as int, b as int),
            Err(IntArithError::Overflow) => !fits_i64(exact_arith(op, a as int, b as int)),
            Err(IntArithError::DivisionByZero) => false,
        },
{
}

/// Truncated division, characterized without dividing: a zero divisor is
/// `DivisionByZero`, the one unrepresentable quotient is `i64::MIN / -1`,
/// and otherwise `q` is the quotient: `a = q*b + r` with `|r| < |b|` and `r`
/// zero or of `a`'s sign.
pub proof fn law_int_div_is_exact(a: i64, b: i64)
    ensures
        match int_arith_spec(IntOp::Div, a, b) {
            Err(IntArithError::DivisionByZero) => b == 0,
            Err(IntArithError::Overflow) => a == i64::MIN && b == -1,
            Ok(q) => {
                let r = a - q * b;
                &&& b != 0
                &&& abs_int(r) < abs_int(b as int)
                &&& (r == 0 || (r < 0) == (a < 0))
            },
        },
{
    if b != 0 {
        lemma_trunc_div_bounds(a as int, b as int);
        let q = trunc_div(a as int, b as int);
        if !fits_i64(q) {
            lemma_div_overflow_only_at_min(a, b);
        } else {
            assert((q as i64) as int == q);
            assert(q * (b as int) == (b as int) * q) by (nonlinear_arith);
        }
    }
}

/// The only quotient of two `i64`s outside `i64` range is `i64::MIN / -1`.
proof fn lemma_div_overflow_only_at_min(a: i64, b: i64)
    requires
        b != 0,
        !fits_i64(trunc_div(a as int, b as int)),
    ensures
        a == i64::MIN && b == -1,
{
    let x = a as int;
    let y = b as int;
    let ax = abs_int(x);
    let ay = abs_int(y);
    assert(ax / ay <= ax) by {
        vstd::arithmetic::div_mod::lemma_div_is_ordered_by_denominator(ax, 1, ay);
        vstd::arithmetic::div_mod::lemma_div_basics(ax);
    }
    assert(ax / ay >= 0) by {
        vstd::arithmetic::div_mod::lemma_div_pos_is_pos(ax, ay);
    }
    if ay >= 2 {
        assert(ax / ay <= ax / 2) by {
            vstd::arithmetic::div_mod::lemma_div_is_ordered_by_denominator(ax, 2, ay);
        }
    }
    assert(trunc_div(x, y) == ax / ay || trunc_div(x, y) == -(ax / ay));
}

/// `%` is the machine's truncated remainder (Rust's `%`, `-7 % 3 == -1`) for
/// every nonzero divisor, and never overflows, `i64::MIN % -1` included
/// (it is 0).
pub proof fn law_int_mod_is_the_remainder(a: i64, b: i64)
    ensures
        match int_arith_spec(IntOp::Mod, a, b) {
            Err(IntArithError::DivisionByZero) => b == 0,
            Err(IntArithError::Overflow) => false,
            Ok(m) => b != 0 && m as int == rem_by_signs(a as int, b as int),
        },
{
    if b != 0 {
        lemma_trunc_div_bounds(a as int, b as int);
    }
}

/// Negation fails exactly when the negated value does not fit: only for
/// `i64::MIN`.
pub proof fn law_int_neg_is_exact(a: i64)
    ensures
        (a == i64::MIN) == !fits_i64(-(a as int)),
{
}

/// The absolute value fails exactly when it does not fit: only for
/// `i64::MIN`.
pub proof fn law_int_abs_is_exact(a: i64)
    ensures
        (a == i64::MIN) == !fits_i64(abs_int(a as int)),
{
}

} // verus!
