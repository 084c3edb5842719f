use petal::numeric::{
    checked_index, clamp_slice_bound, int_abs, int_arith, int_neg, range_len, range_nth,
    resolve_index, IntArithError, IntOp,
};

#[test]
fn range_len_is_exact() {
    let naive = |start: i64, end: i64, step: i64| {
        let (mut n, mut x) = (0u64, start as i128);
        while (step > 0 && x < end as i128) || (step < 0 && x > end as i128) {
            n += 1;
            x += step as i128;
        }
        n
    };
    for start in -12..=12 {
        for end in -12..=12 {
            for step in (-6..=6).filter(|&s| s != 0) {
                assert_eq!(range_len(start, end, step), naive(start, end, step));
            }
        }
    }
    let edges = [
        i64::MIN,
        i64::MIN + 1,
        -3,
        -1,
        0,
        1,
        2,
        3,
        i64::MAX - 1,
        i64::MAX,
    ];
    for &start in &edges {
        for &end in &edges {
            for &step in edges.iter().filter(|&&s| s != 0) {
                let n = range_len(start, end, step) as i128;
                let (s, e, st) = (start as i128, end as i128, step as i128);
                let before_end = |x: i128| if st > 0 { x < e } else { x > e };
                if n > 0 {
                    assert!(before_end(s + (n - 1) * st));
                    assert_eq!(
                        range_nth(start, step, (n - 1) as u64) as i128,
                        s + (n - 1) * st
                    );
                }
                assert!(!before_end(s + n * st), "{start} {end} {step}");
            }
        }
    }
}

#[test]
fn int_arith_checks_overflow_and_division() {
    assert_eq!(int_arith(IntOp::Add, 2, 3), Ok(5));
    assert_eq!(int_arith(IntOp::Add, i64::MAX, 1), Err(IntArithError::Overflow));
    assert_eq!(int_arith(IntOp::Div, 7, 0), Err(IntArithError::DivisionByZero));
    assert_eq!(int_arith(IntOp::Div, -7, 2), Ok(-3));
    assert_eq!(int_arith(IntOp::Mod, -7, 2), Ok(-1));
    assert_eq!(int_neg(i64::MIN), Err(IntArithError::Overflow));
    assert_eq!(int_abs(-4), Ok(4));
}

#[test]
fn indexes_resolve_from_either_end() {
    assert_eq!(resolve_index(3, -1), Some(2));
    assert_eq!(resolve_index(3, 3), None);
    assert_eq!(resolve_index(3, -4), None);
    assert_eq!(clamp_slice_bound(3, -10), 0);
    assert_eq!(clamp_slice_bound(3, 10), 3);
    assert_eq!(checked_index(3, -1), None);
    assert_eq!(checked_index(3, 2), Some(2));
}
