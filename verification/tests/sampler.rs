use rand::rngs::SmallRng;
use rand::SeedableRng;
use sprios::sampler::{grid_side, SampleIndices};

#[test]
fn test() {
    let mut rng = SmallRng::seed_from_u64(11);
    let data = SampleIndices::new(9, 83, &mut rng);
    let stream_rng = SmallRng::seed_from_u64(12);
    let mut s = data.samples(stream_rng);
    let mut i: Vec<usize> = Vec::new();
    for _ in 0..2000 {
        i.push(s.next());
    }
    assert_eq!(i.len(), 2000);
}

#[test]
fn shuffle_indices_stay_in_table() {
    let mut rng = SmallRng::seed_from_u64(1);
    let data = SampleIndices::new(9, 83, &mut rng);
    assert_eq!(data.shuffle.len(), 9 * 83);
    for &v in &data.shuffle {
        assert!(v < 9 * 83);
    }
    let stream_rng = SmallRng::seed_from_u64(2);
    let mut s = data.samples(stream_rng);
    for _ in 0..5000 {
        assert!(s.next() < 9 * 83);
    }
}

#[test]
fn stream_is_deterministic_in_the_draws() {
    let mut rng = SmallRng::seed_from_u64(3);
    let data = SampleIndices::new(4, 7, &mut rng);
    let mut a = data.samples(SmallRng::seed_from_u64(100));
    let mut b = data.samples(SmallRng::seed_from_u64(999));
    // the generators differ; fed the same draws, the streams agree
    let draws = [5usize, 0, 13, 2, 2, 7, 29, 1, 4, 4, 11, 3];
    for &d in &draws {
        assert_eq!(a.step(d), b.step(d));
    }
}

#[test]
fn jump_is_chosen_at_pixel_boundaries() {
    let mut rng = SmallRng::seed_from_u64(4);
    let data = SampleIndices::new(3, 5, &mut rng);
    let mut s = data.samples(SmallRng::seed_from_u64(5));
    // at the boundary (cursor 0) the jump comes from the draw
    s.step(7);
    assert_eq!(s.jump, (7 % 5) * 3);
    // within the pixel the jump stays
    s.step(1);
    assert_eq!(s.jump, (7 % 5) * 3);
    s.step(2);
    assert_eq!(s.jump, (7 % 5) * 3);
    // next pixel: re-chosen
    s.step(9);
    assert_eq!(s.jump, (9 % 5) * 3);
}

#[test]
fn emitted_index_reads_the_shuffle_table() {
    let mut rng = SmallRng::seed_from_u64(6);
    let data = SampleIndices::new(3, 5, &mut rng);
    let mut s = data.samples(SmallRng::seed_from_u64(7));
    let r = s.step(0);
    // cursor became 1, jump 0: slot is 0 + 1 % 3
    assert_eq!(r, data.shuffle[1]);
    let r = s.step(0);
    assert_eq!(r, data.shuffle[2]);
    let r = s.step(0);
    // cursor 3: back to slot 0
    assert_eq!(r, data.shuffle[0]);
}

#[test]
fn grid_side_is_the_integer_square_root() {
    assert_eq!(grid_side(1), 1);
    assert_eq!(grid_side(3), 1);
    assert_eq!(grid_side(4), 2);
    assert_eq!(grid_side(9), 3);
    assert_eq!(grid_side(10), 3);
    assert_eq!(grid_side(16), 4);
    assert_eq!(grid_side(24), 4);
    assert_eq!(grid_side(25), 5);
}
