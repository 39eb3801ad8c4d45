use aoc25::vex::Vex;

#[test]
fn vex_test_add() {
    let v1 = Vex([3, 2]);
    let v2 = Vex([5, 1]);

    assert_eq!(v1 + v2, Vex([8, 3]));
}

#[test]
fn test_add_assign() {
    let mut v1 = Vex([3, 2]);
    v1.add_assign(Vex([5, 1]));

    assert_eq!(v1, Vex([8, 3]));
}

#[test]
fn test_sub() {
    let v1 = Vex([3, 2]);
    let v2 = Vex([5, 1]);

    assert_eq!(v1 - v2, Vex([-2, 1]));
}

#[test]
fn test_sub_assign() {
    let mut v1 = Vex([3, 2]);
    v1.sub_assign(Vex([5, 1]));
    assert_eq!(v1, Vex([-2, 1]));
}

#[test]
fn test_mul() {
    let v1 = Vex([3, 2]);
    assert_eq!(v1 * 2, Vex([6, 4]));
}

#[test]
fn test_mul_assign() {
    let mut v1 = Vex([3, 2]);
    v1.mul_assign(2);
    assert_eq!(v1, Vex([6, 4]));
}

#[test]
fn vex_test_div() {
    let v1 = Vex([3, 2]);
    assert_eq!(v1 / 2, Vex([1, 1]));
}

#[test]
fn test_div_assign() {
    let mut v1 = Vex([3, 2]);
    v1.div_assign(2);
    assert_eq!(v1, Vex([1, 1]));
}

#[test]
fn length2_adds_the_squares() {
    assert_eq!(Vex::new([3u64, 4]).length2(), 25);
    assert_eq!(Vex::new([1u64, 2, 3]).length2(), 14);
}

#[test]
fn parts_of_three() {
    let v = Vex::new([7, 8, 9]);
    assert_eq!((v.x(), v.y(), v.z()), (7, 8, 9));
}

#[test]
fn a_vector_by_default_holds_zeros() {
    let v: Vex<i32, 3> = Vex::default();
    assert_eq!(v, Vex::new([0, 0, 0]));
    let w: Vex<u64, 0> = Vex::default();
    assert_eq!(w.0.len(), 0);
}
