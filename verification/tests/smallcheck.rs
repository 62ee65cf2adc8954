use radicle_surf::smallcheck::{pick, SmallVec};

#[test]
fn pick_follows_the_running_total_of_frequencies() {
    let choices = || vec![(40u32, 'a'), (30, 'b'), (10, 'c')];
    assert_eq!(pick(0, choices()), 'a');
    assert_eq!(pick(1, choices()), 'a');
    assert_eq!(pick(40, choices()), 'a');
    assert_eq!(pick(41, choices()), 'b');
    assert_eq!(pick(70, choices()), 'b');
    assert_eq!(pick(71, choices()), 'c');
    assert_eq!(pick(80, choices()), 'c');
    assert_eq!(pick(5, vec![(0u32, 'z'), (5, 'y')]), 'y');
}

#[test]
fn small_vectors_give_back_their_items() {
    let v = SmallVec { get_small_vec: vec![1, 2, 3] };
    assert_eq!(SmallVec::from(v), vec![1, 2, 3]);
}
