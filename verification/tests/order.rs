use interior_mutability_pointer::{Imp, Region};

#[test]
fn less_ref() {
    let mut r: Region<i32> = Region::new();
    let p1 = Imp::new(&mut r, 4);
    let p2 = Imp::new(&mut r, 5);

    assert!(r.lt(&p1, &p2));
}

#[test]
fn less2_ref() {
    let mut r: Region<i32> = Region::new();
    let p1 = Imp::new(&mut r, 4);
    let p2 = Imp::new(&mut r, 5);

    assert!(r.ge(&p2, &p1));
}

#[test]
fn greater_ref() {
    let mut r: Region<i32> = Region::new();
    let p1 = Imp::new(&mut r, 6);
    let p2 = Imp::new(&mut r, 5);

    assert!(r.gt(&p1, &p2));
}

#[test]
fn greater2_ref() {
    let mut r: Region<i32> = Region::new();
    let p1 = Imp::new(&mut r, 6);
    let p2 = Imp::new(&mut r, 5);

    assert!(r.le(&p2, &p1));
}

#[test]
fn lesser_or_eq_ref() {
    let mut r: Region<i32> = Region::new();
    let p1 = Imp::new(&mut r, 5);
    let p2 = Imp::new(&mut r, 5);

    assert!(r.le(&p1, &p2));
}

#[test]
fn greater_or_eq_ref() {
    let mut r: Region<i32> = Region::new();
    let p1 = Imp::new(&mut r, 6);
    let p2 = Imp::new(&mut r, 5);

    assert!(r.lt(&p2, &p1));
}

#[test]
fn tests_less_ref() {
    let mut r: Region<i32> = Region::new();
    let p1 = Imp::new(&mut r, 4);
    let p2 = 5;

    assert!(r.lt_with(&p1, &p2));
}

#[test]
fn tests_less2_ref() {
    let mut r: Region<i32> = Region::new();
    let p1 = Imp::new(&mut r, 4);
    let p2 = 3;

    assert!(r.ge_with(&p1, &p2));
}

#[test]
fn tests_greater_ref() {
    let mut r: Region<i32> = Region::new();
    let p1 = Imp::new(&mut r, 6);
    let p2 = 5;

    assert!(r.gt_with(&p1, &p2));
}

#[test]
fn tests_greater2_ref() {
    let mut r: Region<i32> = Region::new();
    let p1 = Imp::new(&mut r, 6);
    let p2 = 7;

    assert!(r.le_with(&p1, &p2));
}

#[test]
fn tests_lesser_or_eq_ref() {
    let mut r: Region<i32> = Region::new();
    let p1 = Imp::new(&mut r, 5);
    let p2 = 5;

    assert!(r.le_with(&p1, &p2));
}

#[test]
fn tests_greater_or_eq_ref() {
    let mut r: Region<i32> = Region::new();
    let p1 = Imp::new(&mut r, 6);
    let p2 = 7;

    assert!(r.lt_with(&p1, &p2));
}

#[test]
fn cmp_total() {
    let mut r: Region<i32> = Region::new();
    let p1 = Imp::new(&mut r, 6);
    let p2 = Imp::new(&mut r, 5);

    assert_eq!(r.cmp(&p1, &p2), std::cmp::Ordering::Greater);
    assert_eq!(r.cmp(&p2, &p1), std::cmp::Ordering::Less);
    assert_eq!(r.cmp(&p1, &p1), std::cmp::Ordering::Equal);
}

#[test]
fn partial_cmp_never_unordered() {
    let mut r: Region<f64> = Region::new();
    let p1 = Imp::new(&mut r, f64::NAN);
    let p2 = Imp::new(&mut r, 1.0);

    assert_eq!(r.partial_cmp(&p1, &p2), Some(std::cmp::Ordering::Equal));
}
