use pokers::complex::{copy_ab, widen_shift_clamp, Complex};

#[test]
fn test_complex() {
    let _c = Complex::new(3, 1);
}

#[test]
fn test_get_clipped_msb() {
    let mut c0 = Complex::new(1, -5);
    c0 = c0.get_clipped_msb(5);
    assert!(c0 == Complex::new(1, -5));
    let mut c1 = Complex::new(1, -5);
    c1 = c1.get_clipped_msb(3);
    let c1_text = if c1.im >= 0 {
        format!("{}+{}j", c1.re, c1.im)
    } else {
        format!("{}{}j", c1.re, c1.im)
    };
    println!("c1={}", c1_text);
    assert!(c1 == Complex::new(1, -4));
    let mut c2 = Complex::new(-4, 4);
    c2 = c2.get_clipped_msb(2);
    assert!(c2 == Complex::new(-2, 1));
    let mut c3 = Complex::new(8, 5);
    c3 = c3.get_clipped_msb(4);
    assert!(c3 == Complex::new(7, 5));
}

#[test]
fn test_copy_ab() {
    let a: Vec<Complex> = vec![Complex::new(1, 1); 8];
    let mut b: Vec<Complex> = vec![Complex::new(0, 0); 8];
    copy_ab(&a, &mut b);
    for (ai, bi) in a.iter().zip(b.iter()) {
        assert!(ai == bi);
    }
}

#[test]
fn test_copy_ab_vec() {
    let a: Vec<Complex> = vec![Complex::new(1, 1); 8];
    let mut b: Vec<Complex> = vec![Complex::new(0, 0); 8];
    copy_ab(&a, &mut b);
    for (ai, bi) in a.iter().zip(b.iter()) {
        assert!(ai == bi);
    }
}

#[test]
fn complex_arithmetic() {
    let a = Complex::new(3, -2);
    let b = Complex::new(5, 7);
    let s = a.add(b);
    assert!(s == Complex::new(8, 5));
    let d = a.sub(b);
    assert!(d == Complex::new(-2, -9));
    let p = a.mul(b);
    // (3 - 2j) * (5 + 7j) = 15 + 21j - 10j - 14j^2 = 29 + 11j
    assert!(p == Complex::new(29, 11));
}

#[test]
fn bitshift_right_halves() {
    let mut c = Complex::new(12, -12);
    c.bitshift_right(2);
    assert_eq!(c.re, 3);
    assert_eq!(c.im, -3);
}

#[test]
fn widen_shift_clamp_saturates() {
    assert_eq!(widen_shift_clamp(5, 3), 40);
    assert_eq!(widen_shift_clamp(-5, 3), -40);
    assert_eq!(widen_shift_clamp(i32::MAX, 1), i32::MAX as i64);
    assert_eq!(widen_shift_clamp(i32::MIN, 4), i32::MIN as i64);
    assert_eq!(widen_shift_clamp(0, 20), 0);
}
