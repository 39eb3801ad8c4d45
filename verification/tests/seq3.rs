use aoc25::seq3::{copy_of, Sequence};

#[test]
fn seq3_test_simple() {
    let a: Sequence = [1, 2, 3].into();
    let b = a + [2, -1, 1, 0];

    assert_eq!(b.sample(10), vec![3, 1, 4, 1, 4, 2, 2, 2, 5, 0])
}

#[test]
fn mod_test_div() {
    let a: Sequence = [1, 2, 3].into();

    let b = a.clone() * [2];
    assert_eq!(b.sample(10), vec![1, 1, 2, 2, 3, 3, 1, 1, 2, 2]);

    let b = a * [1, 2, 3];
    assert_eq!(b.sample(10), vec![1, 2, 2, 3, 3, 3, 1, 2, 2, 3])
}

#[test]
fn the_period_of_a_sum_is_the_common_multiple() {
    let a: Sequence = [1, 2, 3].into();
    assert_eq!(a.period(), Some(3));
    let b = a + [2, -1, 1, 0];
    assert_eq!(b.period(), Some(12));
    assert_eq!(Sequence::Silence.period(), Some(1));
    assert_eq!(Sequence::Random { min: 0, max: 1 }.period(), None);
    let c: Sequence = [1].into();
    assert_eq!((c * [2]).period(), None);
}

#[test]
fn rests_are_left_out_and_an_end_ends_the_sample() {
    let rest = Sequence::Pattern {
        pattern: vec![Sequence::Note(4), Sequence::Silence],
        index: 0,
    };
    assert_eq!(rest.sample(5), vec![4, 4, 4]);
    let ended = Sequence::Pattern { pattern: vec![], index: 0 };
    assert_eq!(ended.sample(5), Vec::<i8>::new());
    let drawn = Sequence::Random { min: -2, max: 2 };
    assert!(drawn.sample(20).iter().all(|n| -2 <= *n && *n <= 2));
}

#[test]
fn a_copy_is_built_like_its_source() {
    let mut a: Sequence = [1, 2, 3].into();
    a.next();
    let sum = a + [10, 20];
    let stretched = sum * [2];
    let copy = copy_of(&stretched);
    assert_eq!(format!("{:?}", copy), format!("{:?}", stretched));
    assert_eq!(copy.period(), stretched.period());
    assert_eq!(copy.sample(8), stretched.clone().sample(8));
    assert_eq!(format!("{:?}", copy_of(&Sequence::Silence)), "Silence");
    assert_eq!(
        format!("{:?}", copy_of(&Sequence::Random { min: -2, max: 5 })),
        "Random { min: -2, max: 5 }"
    );
}
