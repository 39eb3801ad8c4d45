use aoc25::exts::iterator::IteratorExt;

#[test]
fn test_unique() {
    let nums = vec![1, 2, 3, 3, 4, 1, 4];
    let unique: Vec<_> = nums.unique_by(|&f| f.clone());
    assert_eq!(unique, vec![1, 2, 3, 4]);
}

#[derive(PartialEq, Eq, Debug)]
struct Val(i32, i32);

#[test]
fn test_unique_by() {
    let vals = vec![Val(1, 2), Val(1, 3), Val(2, 3), Val(1, 4)];
    let unique: Vec<_> = vals.unique_by(|v| v.0);
    assert_eq!(unique, vec![Val(1, 2), Val(2, 3)]);
}

#[test]
fn test_repeat_each() {
    let vals = vec![1, 2, 3];
    let repeated: Vec<_> = vals.repeat_each(3);
    assert_eq!(repeated, vec![1, 1, 1, 2, 2, 2, 3, 3, 3]);
}

#[test]
fn test_repeat_each_empty() {
    let vals: Vec<usize> = vec![];
    let repeated: Vec<_> = vals.repeat_each(3);
    assert_eq!(repeated, vec![]);
}
