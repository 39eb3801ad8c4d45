use aoc25::seq::{NoteSeq, SeqError};

#[test]
fn mod_test_simple() {
    let mut seq1 = NoteSeq::from(1);

    assert_eq!(seq1.take(5), [1, 1, 1, 1, 1]);

    let mut seq2: NoteSeq = NoteSeq::from([1, 2, 3]);
    assert_eq!(seq2.take(10), vec![1, 2, 3, 1, 2, 3, 1, 2, 3, 1]);
}

#[test]
fn mod_test_add() {
    let seq1 = NoteSeq::from([1, 2, 3]);

    assert_eq!(
        seq1.clone().add([1, -1]).take(10),
        [2, 1, 4, 0, 3, 2, 2, 1, 4, 0]
    );

    assert_eq!(
        seq1.add(NoteSeq::from([1, -1])).take(10),
        [2, 1, 4, 0, 3, 2, 2, 1, 4, 0]
    );
}

#[test]
fn mod_test_transpose() {
    let seq1 = NoteSeq::from([1, 2, 3, -1, 0]);
    assert_eq!(
        seq1.add(-4).take(10),
        [-3, -2, -1, -5, -4, -3, -2, -1, -5, -4]
    )
}

#[test]
fn test_pattern_simple() {
    let mut seq1 = NoteSeq::parse("1 2 3").unwrap();
    assert_eq!(seq1.take(5), [1, 2, 3, 1, 2])
}

#[test]
fn test_pattern_repeat() {
    let mut seq1 = NoteSeq::parse("1 2 _").unwrap();
    assert_eq!(seq1.take(10), [1, 2, 2, 1, 2, 2, 1, 2, 2, 1]);

    let mut seq2 = NoteSeq::parse("1 2__ ").unwrap();
    assert_eq!(seq2.take(10), [1, 2, 2, 2, 1, 2, 2, 2, 1, 2]);
}

#[test]
fn test_pattern_subsequence() {
    let mut seq1 = NoteSeq::parse("1 <2 3> 4").unwrap();
    assert_eq!(seq1.take(10), [1, 2, 4, 1, 3, 4, 1, 2, 4, 1]);

    let mut seq2: NoteSeq = NoteSeq::parse("<2 3>").unwrap();
    assert_eq!(seq2.take(10), [2, 3, 2, 3, 2, 3, 2, 3, 2, 3]);
}

#[test]
fn test_pattern_subsequence_nested() {
    let mut seq1 = NoteSeq::parse("<2 1> <2 <3 5>>").unwrap();
    assert_eq!(seq1.take(10), [2, 2, 1, 3, 2, 2, 1, 5, 2, 2]);
}

#[test]
fn a_pattern_that_cannot_be_read_says_why() {
    assert_eq!(NoteSeq::parse("1 -").err(), Some(SeqError::ExpectedNumber));
    assert_eq!(NoteSeq::parse("1 -x").err(), Some(SeqError::ExpectedNumeric('x')));
    assert_eq!(NoteSeq::parse("128").err(), Some(SeqError::Overflow));
    assert_eq!(NoteSeq::parse("1 a").err(), Some(SeqError::UnexpectedToken('a')));
    let mut low = NoteSeq::parse("-127 127").unwrap();
    assert_eq!(low.take(2), [-127, 127]);
    let mut early = NoteSeq::parse("7 > 9 x").unwrap();
    assert_eq!(early.take(3), [7, 7, 7]);
    assert!(!NoteSeq::parse("").unwrap().is_playable());
    assert!(!NoteSeq::parse("1 <>").unwrap().is_playable());
}

#[test]
fn notes_played_together() {
    let base = NoteSeq::from([100, -100, 5]);
    assert_eq!(base.clone().add(100).take(3), [-56, 0, 105]);
    assert_eq!(base.clone().sub([100, 1]).take(3), [0, -101, -95]);
    assert_eq!(base.clone().max(7).take(3), [100, 7, 7]);
    assert_eq!(base.clone().min(7).take(3), [7, -100, 5]);
    assert_eq!(base.clone().clamp(-12, 12).take(3), [12, -12, 5]);
    assert_eq!(base.slow(2).take(7), [100, 100, -100, -100, 5, 5, 100]);
}

#[test]
fn a_drawn_note_lies_between_its_bounds() {
    let mut drawn = NoteSeq::rand(5, -5);
    assert!(drawn.is_playable());
    for note in drawn.take(50) {
        assert!(-5 <= note && note <= 5);
    }
}
