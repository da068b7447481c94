use decert::bitmap::BitMap;
use decert::scheduler::task_schedule;

#[test]
fn disjoint_candidates_all_run() {
    let cands = vec![(vec![0u8], 1u64), (vec![1u8], 1u64), (vec![], 1u64)];
    assert_eq!(task_schedule(&cands, BitMap::new()), vec![true, true, true]);
}

#[test]
fn equal_weights_take_the_earlier_candidate() {
    let cands = vec![(vec![0u8], 1u64), (vec![0u8], 1u64)];
    assert_eq!(task_schedule(&cands, BitMap::new()), vec![true, false]);
}

#[test]
fn heavier_candidate_wins_a_conflict() {
    let cands = vec![(vec![0u8], 1u64), (vec![0u8, 2u8], 3u64)];
    assert_eq!(task_schedule(&cands, BitMap::new()), vec![false, true]);
}

#[test]
fn two_light_candidates_beat_one_heavier() {
    // the middle one conflicts with both others; 2 + 2 > 3
    let cands = vec![(vec![0u8], 2u64), (vec![0u8, 1u8], 3u64), (vec![1u8], 2u64)];
    assert_eq!(task_schedule(&cands, BitMap::new()), vec![true, false, true]);
}

#[test]
fn held_slots_are_not_offered() {
    let mut held = BitMap::new();
    held.set(5, true);
    let cands = vec![(vec![5u8], 9u64), (vec![6u8], 1u64)];
    assert_eq!(task_schedule(&cands, held), vec![false, true]);
}

#[test]
fn a_long_starved_candidate_is_chosen() {
    // weight above the sum of all the others
    let cands = vec![(vec![0u8], 2u64), (vec![0u8, 1u8], 6u64), (vec![1u8], 3u64)];
    assert_eq!(task_schedule(&cands, BitMap::new()), vec![false, true, false]);
}

#[test]
fn no_candidates() {
    assert!(task_schedule(&vec![], BitMap::new()).is_empty());
}
