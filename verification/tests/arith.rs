use interior_mutability_pointer::{Imp, Region};

#[test]
fn add() {
    let mut r: Region<i32> = Region::new();
    let mut p = Imp::new(&mut r, 1);
    p = r.add_value(&p, 1);
    assert!(r.value_eq_with(&p, &2));
}

#[test]
fn add_ref() {
    let mut r: Region<i32> = Region::new();
    let mut p1 = Imp::new(&mut r, 1);
    let p2 = Imp::new(&mut r, 1);
    p1 = r.add(&p1, &p2);
    assert!(r.value_eq_with(&p1, &2));
}

#[test]
fn add_assign() {
    let mut r: Region<i32> = Region::new();
    let p = Imp::new(&mut r, 1);
    r.add_assign_value(&p, 1);
    assert!(r.value_eq_with(&p, &2));
}

#[test]
fn add_assign_ref() {
    let mut r: Region<i32> = Region::new();
    let p1 = Imp::new(&mut r, 1);
    let p2 = Imp::new(&mut r, 1);
    r.add_assign(&p1, &p2);
    assert!(r.value_eq_with(&p1, &2));
}

#[test]
fn clone_assign() {
    let mut r: Region<i32> = Region::new();
    let p1 = Imp::new(&mut r, 2);
    let p2 = p1.clone_handle(&mut r);
    r.add_assign_value(&p1, 2);
    assert!(r.value_eq(&p1, &p2));
}

#[test]
fn sub() {
    let mut r: Region<i32> = Region::new();
    let mut p = Imp::new(&mut r, 1);
    p = r.sub_value(&p, 1);
    assert!(r.value_eq_with(&p, &0));
}

#[test]
fn sub_ref() {
    let mut r: Region<i32> = Region::new();
    let mut p1 = Imp::new(&mut r, 1);
    let p2 = Imp::new(&mut r, 1);
    p1 = r.sub(&p1, &p2);
    assert!(r.value_eq_with(&p1, &0));
}

#[test]
fn sub_assign() {
    let mut r: Region<i32> = Region::new();
    let p = Imp::new(&mut r, 1);
    r.sub_assign_value(&p, 1);
    assert!(r.value_eq_with(&p, &0));
}

#[test]
fn sub_assign_ref() {
    let mut r: Region<i32> = Region::new();
    let p1 = Imp::new(&mut r, 1);
    let p2 = Imp::new(&mut r, 1);
    r.sub_assign(&p1, &p2);
    assert!(r.value_eq_with(&p1, &0));
}

#[test]
fn clone_assign_sub() {
    let mut r: Region<i32> = Region::new();
    let p1 = Imp::new(&mut r, 2);
    let p2 = p1.clone_handle(&mut r);
    r.sub_assign_value(&p1, 2);
    assert!(r.value_eq(&p1, &p2));
}

#[test]
fn mul() {
    let mut r: Region<i32> = Region::new();
    let p1 = Imp::new(&mut r, 2);
    let p2 = 5;
    let q = r.mul_value(&p1, p2);
    assert!(r.value_eq_with(&q, &10));
}

#[test]
fn mul_float() {
    let mut r: Region<f64> = Region::new();
    let p1 = Imp::new(&mut r, 2.0);
    let p2 = 5.0;
    let q = r.mul_value(&p1, p2);
    assert!(r.value_eq_with(&q, &10.0));
}

#[test]
fn mul_ref() {
    let mut r: Region<i32> = Region::new();
    let p1 = Imp::new(&mut r, 2);
    let p2 = Imp::new(&mut r, 5);
    let q = r.mul(&p1, &p2);
    assert!(r.value_eq_with(&q, &10));
}

#[test]
fn mul_float_ref() {
    let mut r: Region<f64> = Region::new();
    let p1 = Imp::new(&mut r, 2.0);
    let p2 = Imp::new(&mut r, 5.0);
    let q = r.mul(&p1, &p2);
    assert!(r.value_eq_with(&q, &10.0));
}

#[test]
fn tests_mul() {
    let mut r: Region<i32> = Region::new();
    let p1 = Imp::new(&mut r, 2);
    r.mul_assign_value(&p1, 5);
    assert!(r.value_eq_with(&p1, &10));
}

#[test]
fn tests_mul_float() {
    let mut r: Region<f64> = Region::new();
    let p1 = Imp::new(&mut r, 2.0);
    r.mul_assign_value(&p1, 5.0);
    assert!(r.value_eq_with(&p1, &10.0));
}

#[test]
fn tests_mul_ref() {
    let mut r: Region<i32> = Region::new();
    let p1 = Imp::new(&mut r, 2);
    let p2 = Imp::new(&mut r, 5);
    r.mul_assign(&p1, &p2);
    assert!(r.value_eq_with(&p1, &10));
}

#[test]
fn tests_mul_float_ref() {
    let mut r: Region<f64> = Region::new();
    let p1 = Imp::new(&mut r, 2.0);
    let p2 = Imp::new(&mut r, 5.0);
    r.mul_assign(&p1, &p2);
    assert!(r.value_eq_with(&p1, &10.0));
}

#[test]
fn clone_assign_mul() {
    let mut r: Region<f64> = Region::new();
    let p1 = Imp::new(&mut r, 2.0);
    let p2 = p1.clone_handle(&mut r);
    r.mul_assign_value(&p1, 5.0);
    assert!(r.value_eq(&p1, &p2));
}

#[test]
fn div() {
    let mut r: Region<i32> = Region::new();
    let p1 = Imp::new(&mut r, 10);
    let p2 = 2;
    let q = r.div_value(&p1, p2);
    assert!(r.value_eq_with(&q, &5));
}

#[test]
fn div_float() {
    let mut r: Region<f64> = Region::new();
    let p1 = Imp::new(&mut r, 10.0);
    let p2 = 2.0;
    let q = r.div_value(&p1, p2);
    assert!(r.value_eq_with(&q, &5.0));
}

#[test]
fn div_ref() {
    let mut r: Region<i32> = Region::new();
    let p1 = Imp::new(&mut r, 10);
    let p2 = Imp::new(&mut r, 5);
    let q = r.div(&p1, &p2);
    assert!(r.value_eq_with(&q, &2));
}

#[test]
fn div_float_ref() {
    let mut r: Region<f64> = Region::new();
    let p1 = Imp::new(&mut r, 10.0);
    let p2 = Imp::new(&mut r, 5.0);
    let q = r.div(&p1, &p2);
    assert!(r.value_eq_with(&q, &2.0));
}

#[test]
fn tests_div() {
    let mut r: Region<i32> = Region::new();
    let p1 = Imp::new(&mut r, 10);
    r.div_assign_value(&p1, 2);
    assert!(r.value_eq_with(&p1, &5));
}

#[test]
fn tests_div_float() {
    let mut r: Region<f64> = Region::new();
    let p1 = Imp::new(&mut r, 10.0);
    r.div_assign_value(&p1, 2.0);
    assert!(r.value_eq_with(&p1, &5.0));
}

#[test]
fn tests_div_ref() {
    let mut r: Region<i32> = Region::new();
    let p1 = Imp::new(&mut r, 10);
    let p2 = Imp::new(&mut r, 2);
    r.div_assign(&p1, &p2);
    assert!(r.value_eq_with(&p1, &5));
}

#[test]
fn tests_div_float_ref() {
    let mut r: Region<f64> = Region::new();
    let p1 = Imp::new(&mut r, 10.0);
    let p2 = Imp::new(&mut r, 2.0);
    r.div_assign(&p1, &p2);
    assert!(r.value_eq_with(&p1, &5.0));
}

#[test]
fn clone_assign_div() {
    let mut r: Region<i32> = Region::new();
    let p1 = Imp::new(&mut r, 10);
    let p2 = p1.clone_handle(&mut r);
    r.div_assign_value(&p1, 2);
    assert!(r.value_eq(&p1, &p2));
}

#[test]
fn rem() {
    let mut r: Region<i32> = Region::new();
    let p1 = Imp::new(&mut r, 10);
    let p2 = 8;
    let q = r.rem_value(&p1, p2);
    assert!(r.value_eq_with(&q, &2));
}

#[test]
fn rem_float() {
    let mut r: Region<f64> = Region::new();
    let p1 = Imp::new(&mut r, 10.0);
    let p2 = 8.0;
    let q = r.rem_value(&p1, p2);
    assert!(r.value_eq_with(&q, &2.0));
}

#[test]
fn rem_ref() {
    let mut r: Region<i32> = Region::new();
    let p1 = Imp::new(&mut r, 10);
    let p2 = Imp::new(&mut r, 8);
    let q = r.rem(&p1, &p2);
    assert!(r.value_eq_with(&q, &2));
}

#[test]
fn rem_float_ref() {
    let mut r: Region<f64> = Region::new();
    let p1 = Imp::new(&mut r, 10.0);
    let p2 = Imp::new(&mut r, 8.0);
    let q = r.rem(&p1, &p2);
    assert!(r.value_eq_with(&q, &2.0));
}

#[test]
fn tests_rem() {
    let mut r: Region<i32> = Region::new();
    let p1 = Imp::new(&mut r, 10);
    r.rem_assign_value(&p1, 8);
    assert!(r.value_eq_with(&p1, &2));
}

#[test]
fn tests_rem_float() {
    let mut r: Region<f64> = Region::new();
    let p1 = Imp::new(&mut r, 10.0);
    r.rem_assign_value(&p1, 8.0);
    assert!(r.value_eq_with(&p1, &2.0));
}

#[test]
fn tests_rem_ref() {
    let mut r: Region<i32> = Region::new();
    let p1 = Imp::new(&mut r, 10);
    let p2 = Imp::new(&mut r, 8);
    r.rem_assign(&p1, &p2);
    assert!(r.value_eq_with(&p1, &2));
}

#[test]
fn tests_rem_float_ref() {
    let mut r: Region<f64> = Region::new();
    let p1 = Imp::new(&mut r, 10.0);
    let p2 = Imp::new(&mut r, 8.0);
    r.rem_assign(&p1, &p2);
    assert!(r.value_eq_with(&p1, &2.0));
}

#[test]
fn clone_assign_rem() {
    let mut r: Region<f64> = Region::new();
    let p1 = Imp::new(&mut r, 10.0);
    let p2 = p1.clone_handle(&mut r);
    r.rem_assign_value(&p1, 8.0);
    assert!(r.value_eq(&p1, &p2));
}

#[test]
fn neg_true() {
    let mut r: Region<i32> = Region::new();
    let p1 = Imp::new(&mut r, 10);
    let c = p1.clone_handle(&mut r);
    let p2 = r.neg(&c);
    assert!(!r.value_eq(&p1, &p2));
}

#[test]
fn neg_false() {
    let mut r: Region<i32> = Region::new();
    let p1 = Imp::new(&mut r, 10);
    let c = p1.clone_handle(&mut r);
    let p2 = r.neg(&c);
    assert!(!r.value_eq(&p1, &p2));
}
