use site::logret::{log_return, LOG_RETURN_BOUND};
use site::numfmt::{push_dec_i64, push_dec_u64, push_fixed2, push_lit};

fn text(bytes: Vec<u8>) -> String {
    String::from_utf8(bytes).unwrap()
}

#[test]
fn decimal_rendering_is_exact() {
    let mut out = Vec::new();
    push_dec_u64(&mut out, 0);
    push_lit(&mut out, " ");
    push_dec_u64(&mut out, 40_960);
    push_lit(&mut out, " ");
    push_dec_i64(&mut out, -12_345);
    assert_eq!(text(out), "0 40960 -12345");
}

#[test]
fn two_decimal_rendering_rounds_half_away_from_zero() {
    let mut out = Vec::new();
    // exactly 3.14159... at scale renders as its nearest hundredth
    push_fixed2(&mut out, 314_159_265);
    push_lit(&mut out, " ");
    push_fixed2(&mut out, 500_000);
    push_lit(&mut out, " ");
    push_fixed2(&mut out, 499_999);
    assert_eq!(text(out), "3.14 0.01 0.00");
}

#[test]
fn log_return_of_equal_observations_is_exactly_zero() {
    assert_eq!(log_return(1, 1), 0);
    assert_eq!(log_return(123_456_789, 123_456_789), 0);
    assert_eq!(log_return(i64::MAX, i64::MAX), 0);
}

#[test]
fn log_return_flips_sign_when_reversed() {
    let up = log_return(250_000_000, 100_000_000);
    let down = log_return(100_000_000, 250_000_000);
    assert_eq!(up, -down);
    assert!(up > 0);
}

#[test]
fn log_return_depends_on_the_ratio_alone() {
    assert_eq!(
        log_return(200_000_000, 100_000_000),
        log_return(400_000_000, 200_000_000)
    );
}

#[test]
fn log_return_of_doubling_is_close_to_ln_two() {
    // ln 2 at the fixed-point scale is 69_314_718
    let v = log_return(200_000_000, 100_000_000);
    assert!((v - 69_314_718).abs() < 20_000, "got {}", v);
}

#[test]
fn log_return_grows_with_the_ratio() {
    let small = log_return(110_000_000, 100_000_000);
    let large = log_return(300_000_000, 100_000_000);
    assert!(small > 0);
    assert!(small < large);
    assert!(large <= LOG_RETURN_BOUND);
}
