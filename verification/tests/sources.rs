use random_walk_game::{DrawSource, DRAW_SCALE};

#[test]
fn draw_scale_is_two_to_the_52() {
    assert_eq!(DRAW_SCALE, 1u64 << 52);
}

#[test]
fn entropy_draws_stay_below_the_scale() {
    let mut source = DrawSource::entropy();
    for _ in 0..10_000 {
        assert!(source.next_draw() < DRAW_SCALE);
    }
}

#[test]
fn entropy_draws_are_not_all_alike() {
    let mut source = DrawSource::entropy();
    let first = source.next_draw();
    let mut differs = false;
    for _ in 0..64 {
        if source.next_draw() != first {
            differs = true;
        }
    }
    assert!(differs);
}

#[test]
fn repeating_source_hands_out_its_script_in_order_and_starts_over() {
    let mut source = DrawSource::repeating(vec![7, 0, DRAW_SCALE - 1]).unwrap();
    let drawn: Vec<u64> = (0..7).map(|_| source.next_draw()).collect();
    assert_eq!(drawn, vec![7, 0, DRAW_SCALE - 1, 7, 0, DRAW_SCALE - 1, 7]);
}

#[test]
fn repeating_source_of_one_draw_repeats_it() {
    let mut source = DrawSource::repeating(vec![42]).unwrap();
    assert_eq!(source.next_draw(), 42);
    assert_eq!(source.next_draw(), 42);
}

#[test]
fn repeating_source_refuses_an_empty_script() {
    assert!(DrawSource::repeating(Vec::new()).is_none());
}

#[test]
fn repeating_source_refuses_a_draw_at_the_scale() {
    assert!(DrawSource::repeating(vec![0, DRAW_SCALE]).is_none());
    assert!(DrawSource::repeating(vec![u64::MAX]).is_none());
    assert!(DrawSource::repeating(vec![DRAW_SCALE - 1]).is_some());
}
