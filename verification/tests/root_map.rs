use lib::map::{finish_step, small_start, Finish};
use lib::normalizer::Mode;

#[test]
fn finishing_rounds_follow_mode_length_and_parity() {
    assert_eq!(finish_step(Mode::N202, 7, true), Finish::ToTwo);
    assert_eq!(finish_step(Mode::N122, 3, false), Finish::FinalRow);
    assert_eq!(finish_step(Mode::N0002, 0, true), Finish::FinalRow);
    assert_eq!(finish_step(Mode::H, 18, true), Finish::Halt(18));
    assert_eq!(finish_step(Mode::H, 16, true), Finish::FinalRow);
    assert_eq!(finish_step(Mode::H, 14, false), Finish::FinalRow);
    assert_eq!(finish_step(Mode::H, 16, false), Finish::Descend(7));
    assert_eq!(finish_step(Mode::H, 40, false), Finish::Descend(19));
}

#[test]
fn small_starts_for_odd_roots() {
    let s = small_start(1, 12);
    assert_eq!((s.head, s.word.clone(), s.v, s.loss, s.constant), (1, vec![3, 1], 5, 17, 41));
    let s = small_start(1, 13);
    assert_eq!((s.head, s.word.clone(), s.v, s.loss, s.constant), (2, vec![], 7, 21, 57));
    let s = small_start(0, 13);
    assert_eq!((s.head, s.word.clone(), s.v, s.loss, s.constant), (2, vec![], 8, 18, 34));
    let s = small_start(0, 12);
    assert_eq!((s.head, s.word.clone(), s.v, s.loss, s.constant), (2, vec![], 8, 14, 25));
}
