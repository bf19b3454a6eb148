use pimgext::num::eq_num;
use pimgext::value::Val;

fn f64v(x: f64) -> Val {
    Val::F64(x.to_bits())
}

fn f32v(x: f32) -> Val {
    Val::F32(x.to_bits())
}

#[test]
fn eq_num_ints_and_bools() {
    assert!(eq_num(&Val::Int(13), 13));
    assert!(!eq_num(&Val::Int(12), 13));
    assert!(eq_num(&Val::Bool(true), 1));
    assert!(eq_num(&Val::Bool(false), 0));
    assert!(!eq_num(&Val::Null, 0));
    assert!(!eq_num(&Val::Str("0".to_string()), 0));
}

#[test]
fn eq_num_floats() {
    assert!(eq_num(&f64v(1.0), 1));
    assert!(!eq_num(&f64v(1.5), 1));
    assert!(eq_num(&f64v(-0.0), 0));
    assert!(eq_num(&f64v(-13.0), -13));
    assert!(eq_num(&f32v(13.0), 13));
    assert!(!eq_num(&f32v(0.1), 0));
    assert!(!eq_num(&f64v(f64::NAN), 0));
    assert!(!eq_num(&f64v(f64::INFINITY), i128::MAX));
    assert!(eq_num(&f64v(2f64.powi(100)), 1i128 << 100));
    assert!(!eq_num(&f64v(1e38), 99999999999999997748809823456034029568));
    assert!(eq_num(&f64v(4503599627370497.0), 4503599627370497));
    assert!(!eq_num(&f64v(5e-324), 0));
    assert!(eq_num(&f32v(16777216.0), 16777216));
}
