use interior_mutability_pointer::{Imp, Region};

#[test]
fn bitand_true() {
    let mut r: Region<bool> = Region::new();
    let p1 = Imp::new(&mut r, true);
    let p2 = true;
    let q = r.bitand_value(&p1, p2);
    assert!(r.value_eq_with(&q, &true));
}

#[test]
fn bitand_false() {
    let mut r: Region<bool> = Region::new();
    let p1 = Imp::new(&mut r, true);
    let p2 = false;
    let q = r.bitand_value(&p1, p2);
    assert!(!r.value_eq_with(&q, &true));
}

#[test]
fn bitand_true_ref() {
    let mut r: Region<bool> = Region::new();
    let p1 = Imp::new(&mut r, true);
    let p2 = Imp::new(&mut r, true);
    let q = r.bitand(&p1, &p2);
    assert!(r.value_eq_with(&q, &true));
}

#[test]
fn bitand_false_ref() {
    let mut r: Region<bool> = Region::new();
    let p1 = Imp::new(&mut r, true);
    let p2 = Imp::new(&mut r, false);
    let q = r.bitand(&p1, &p2);
    assert!(r.value_eq_with(&q, &false));
}

#[test]
fn tests_bitand_true() {
    let mut r: Region<bool> = Region::new();
    let p1 = Imp::new(&mut r, true);
    r.bitand_assign_value(&p1, true);
    assert!(r.value_eq_with(&p1, &true));
}

#[test]
fn tests_bitand_false() {
    let mut r: Region<bool> = Region::new();
    let p1 = Imp::new(&mut r, true);
    r.bitand_assign_value(&p1, false);
    assert!(!r.value_eq_with(&p1, &true));
}

#[test]
fn tests_bitand_true_ref() {
    let mut r: Region<bool> = Region::new();
    let p1 = Imp::new(&mut r, true);
    let p2 = Imp::new(&mut r, true);
    r.bitand_assign(&p1, &p2);
    assert!(r.value_eq_with(&p1, &true));
}

#[test]
fn tests_bitand_false_ref() {
    let mut r: Region<bool> = Region::new();
    let p1 = Imp::new(&mut r, true);
    let p2 = Imp::new(&mut r, false);
    r.bitand_assign(&p1, &p2);
    assert!(r.value_eq_with(&p1, &false));
}

#[test]
fn tests_clone_assign() {
    let mut r: Region<bool> = Region::new();
    let p1 = Imp::new(&mut r, true);
    let p2 = p1.clone_handle(&mut r);
    r.bitand_assign_value(&p1, false);
    assert!(r.value_eq(&p1, &p2));
}

#[test]
fn bitor_true() {
    let mut r: Region<bool> = Region::new();
    let p1 = Imp::new(&mut r, true);
    let p2 = true;
    let q = r.bitor_value(&p1, p2);
    assert!(r.value_eq_with(&q, &true));
}

#[test]
fn bitor_true_false() {
    let mut r: Region<bool> = Region::new();
    let p1 = Imp::new(&mut r, true);
    let p2 = false;
    let q = r.bitor_value(&p1, p2);
    assert!(r.value_eq_with(&q, &true));
}

#[test]
fn bitor_false_false() {
    let mut r: Region<bool> = Region::new();
    let p1 = Imp::new(&mut r, false);
    let p2 = false;
    let q = r.bitor_value(&p1, p2);
    assert!(r.value_eq_with(&q, &false));
}

#[test]
fn bitor_true_true_ref() {
    let mut r: Region<bool> = Region::new();
    let p1 = Imp::new(&mut r, true);
    let p2 = Imp::new(&mut r, true);
    let q = r.bitor(&p1, &p2);
    assert!(r.value_eq_with(&q, &true));
}

#[test]
fn bitor_true_false_ref() {
    let mut r: Region<bool> = Region::new();
    let p1 = Imp::new(&mut r, true);
    let p2 = Imp::new(&mut r, false);
    let q = r.bitor(&p1, &p2);
    assert!(r.value_eq_with(&q, &true));
}

#[test]
fn bitor_false_false_ref() {
    let mut r: Region<bool> = Region::new();
    let p1 = Imp::new(&mut r, false);
    let p2 = Imp::new(&mut r, false);
    let q = r.bitor(&p1, &p2);
    assert!(r.value_eq_with(&q, &false));
}

#[test]
fn tests_bitor_true() {
    let mut r: Region<bool> = Region::new();
    let p1 = Imp::new(&mut r, true);
    r.bitor_assign_value(&p1, true);
    assert!(r.value_eq_with(&p1, &true));
}

#[test]
fn bitor_false() {
    let mut r: Region<bool> = Region::new();
    let p1 = Imp::new(&mut r, true);
    r.bitor_assign_value(&p1, false);
    assert!(r.value_eq_with(&p1, &true));
}

#[test]
fn bitor_true_ref() {
    let mut r: Region<bool> = Region::new();
    let p1 = Imp::new(&mut r, false);
    let p2 = Imp::new(&mut r, false);
    r.bitor_assign(&p1, &p2);
    assert!(r.value_eq_with(&p1, &false));
}

#[test]
fn bitor_false_ref() {
    let mut r: Region<bool> = Region::new();
    let p1 = Imp::new(&mut r, false);
    let p2 = Imp::new(&mut r, true);
    r.bitor_assign(&p1, &p2);
    assert!(r.value_eq_with(&p1, &true));
}

#[test]
fn clone_assign_bitor() {
    let mut r: Region<bool> = Region::new();
    let p1 = Imp::new(&mut r, false);
    let p2 = p1.clone_handle(&mut r);
    r.bitor_assign_value(&p1, true);
    assert!(r.value_eq(&p1, &p2));
}

#[test]
fn bitxor_true() {
    let mut r: Region<bool> = Region::new();
    let p1 = Imp::new(&mut r, true);
    let p2 = true;
    let q = r.bitxor_value(&p1, p2);
    assert!(r.value_eq_with(&q, &false));
}

#[test]
fn bitxor_true_false() {
    let mut r: Region<bool> = Region::new();
    let p1 = Imp::new(&mut r, true);
    let p2 = false;
    let q = r.bitxor_value(&p1, p2);
    assert!(r.value_eq_with(&q, &true));
}

#[test]
fn bitxor_false_false() {
    let mut r: Region<bool> = Region::new();
    let p1 = Imp::new(&mut r, false);
    let p2 = false;
    let q = r.bitxor_value(&p1, p2);
    assert!(r.value_eq_with(&q, &false));
}

#[test]
fn bitxor_true_true_ref() {
    let mut r: Region<bool> = Region::new();
    let p1 = Imp::new(&mut r, true);
    let p2 = Imp::new(&mut r, true);
    let q = r.bitxor(&p1, &p2);
    assert!(r.value_eq_with(&q, &false));
}

#[test]
fn bitxor_true_false_ref() {
    let mut r: Region<bool> = Region::new();
    let p1 = Imp::new(&mut r, true);
    let p2 = Imp::new(&mut r, false);
    let q = r.bitxor(&p1, &p2);
    assert!(r.value_eq_with(&q, &true));
}

#[test]
fn bitxor_false_false_ref() {
    let mut r: Region<bool> = Region::new();
    let p1 = Imp::new(&mut r, false);
    let p2 = Imp::new(&mut r, false);
    let q = r.bitxor(&p1, &p2);
    assert!(r.value_eq_with(&q, &false));
}

#[test]
fn tests_bitxor_true() {
    let mut r: Region<bool> = Region::new();
    let p1 = Imp::new(&mut r, true);
    r.bitxor_assign_value(&p1, true);
    assert!(r.value_eq_with(&p1, &false));
}

#[test]
fn bitxor_false() {
    let mut r: Region<bool> = Region::new();
    let p1 = Imp::new(&mut r, true);
    r.bitxor_assign_value(&p1, false);
    assert!(r.value_eq_with(&p1, &true));
}

#[test]
fn bitxor_true_ref() {
    let mut r: Region<bool> = Region::new();
    let p1 = Imp::new(&mut r, false);
    let p2 = Imp::new(&mut r, false);
    r.bitxor_assign(&p1, &p2);
    assert!(r.value_eq_with(&p1, &false));
}

#[test]
fn bitxor_false_ref() {
    let mut r: Region<bool> = Region::new();
    let p1 = Imp::new(&mut r, false);
    let p2 = Imp::new(&mut r, true);
    r.bitxor_assign(&p1, &p2);
    assert!(r.value_eq_with(&p1, &true));
}

#[test]
fn clone_assign_bitxor() {
    let mut r: Region<bool> = Region::new();
    let p1 = Imp::new(&mut r, false);
    let p2 = p1.clone_handle(&mut r);
    r.bitxor_assign_value(&p1, true);
    assert!(r.value_eq(&p1, &p2));
}

#[test]
fn not_true() {
    let mut r: Region<bool> = Region::new();
    let p1 = Imp::new(&mut r, true);
    let c = p1.clone_handle(&mut r);
    let p2 = r.not(&c);
    assert!(!r.value_eq(&p1, &p2));
}

#[test]
fn not_false() {
    let mut r: Region<bool> = Region::new();
    let p1 = Imp::new(&mut r, true);
    let c = p1.clone_handle(&mut r);
    let p2 = r.not(&c);
    assert!(!r.value_eq(&p1, &p2));
}

#[test]
fn shl() {
    let mut r: Region<i32> = Region::new();
    let p1 = Imp::new(&mut r, 8);
    let p2 = 1;
    let q = r.shl_value(&p1, p2);
    assert!(r.value_eq_with(&q, &16));
}

#[test]
fn shl_ref() {
    let mut r: Region<i32> = Region::new();
    let p1 = Imp::new(&mut r, 8);
    let p2 = Imp::new(&mut r, 1);
    let q = r.shl(&p1, &p2);
    assert!(r.value_eq_with(&q, &16));
}

#[test]
fn tests_shl() {
    let mut r: Region<i32> = Region::new();
    let p1 = Imp::new(&mut r, 8);
    r.shl_assign_value(&p1, 1);
    assert!(r.value_eq_with(&p1, &16));
}

#[test]
fn tests_shl_ref() {
    let mut r: Region<i32> = Region::new();
    let p1 = Imp::new(&mut r, 8);
    let p2 = Imp::new(&mut r, 1);
    r.shl_assign(&p1, &p2);
    assert!(r.value_eq_with(&p1, &16));
}

#[test]
fn clone_assign_shl() {
    let mut r: Region<i32> = Region::new();
    let p1 = Imp::new(&mut r, 8);
    let p2 = p1.clone_handle(&mut r);
    r.shl_assign_value(&p1, 2);
    assert!(r.value_eq(&p1, &p2));
}

#[test]
fn shr() {
    let mut r: Region<i32> = Region::new();
    let p1 = Imp::new(&mut r, 8);
    let p2 = 1;
    let q = r.shr_value(&p1, p2);
    assert!(r.value_eq_with(&q, &4));
}

#[test]
fn shr_ref() {
    let mut r: Region<i32> = Region::new();
    let p1 = Imp::new(&mut r, 8);
    let p2 = Imp::new(&mut r, 1);
    let q = r.shr(&p1, &p2);
    assert!(r.value_eq_with(&q, &4));
}

#[test]
fn shr_assign() {
    let mut r: Region<i32> = Region::new();
    let p1 = Imp::new(&mut r, 8);
    r.shr_assign_value(&p1, 1);
    assert!(r.value_eq_with(&p1, &4));
}

#[test]
fn shr_assign_ref() {
    let mut r: Region<i32> = Region::new();
    let p1 = Imp::new(&mut r, 8);
    let p2 = Imp::new(&mut r, 1);
    r.shr_assign(&p1, &p2);
    assert!(r.value_eq_with(&p1, &4));
}

#[test]
fn clone_assign_shr() {
    let mut r: Region<i32> = Region::new();
    let p1 = Imp::new(&mut r, 8);
    let p2 = p1.clone_handle(&mut r);
    r.shr_assign_value(&p1, 2);
    assert!(r.value_eq(&p1, &p2));
}
