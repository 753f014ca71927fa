use rand::rngs::StdRng;
use rand::SeedableRng;
use social_graph::random::{
    draw_child_rolls, redraw_value, shuffle_read_samples, shuffle_write_samples, value_buffer,
};
use social_graph::sampling::{SampledKey, WriteSample};

#[test]
fn rolls_skip_first_key() {
    let mut rng = StdRng::seed_from_u64(7);
    let rolls = draw_child_rolls(50, &mut rng);
    assert_eq!(rolls.len(), 50);
    assert_eq!(rolls[0], 0);
    assert!(rolls[1..].iter().all(|r| (1..=100).contains(r)));
    assert!(draw_child_rolls(0, &mut rng).is_empty());
}

#[test]
fn shuffles_keep_every_key() {
    let mut rng = StdRng::seed_from_u64(3);
    let mut keys: Vec<SampledKey> = (0..20u8).map(|i| SampledKey { key: vec![i], child: None }).collect();
    shuffle_read_samples(&mut keys, &mut rng);
    let mut seen: Vec<u8> = keys.iter().map(|k| k.key[0]).collect();
    seen.sort();
    assert_eq!(seen, (0..20u8).collect::<Vec<u8>>());

    let mut samples: Vec<WriteSample> =
        (0..10u8).map(|i| WriteSample { key: vec![i], size: i as usize, child: Some(1) }).collect();
    shuffle_write_samples(&mut samples, &mut rng);
    let mut sizes: Vec<usize> = samples.iter().map(|s| s.size).collect();
    sizes.sort();
    assert_eq!(sizes, (0..10usize).collect::<Vec<usize>>());
}

#[test]
fn values_keep_their_size() {
    let mut rng = StdRng::seed_from_u64(11);
    let mut buf = value_buffer(64);
    assert_eq!(buf, vec![0u8; 64]);
    redraw_value(&mut buf, &mut rng);
    assert_eq!(buf.len(), 64);
    assert!(buf.iter().any(|b| *b != 0));
}

#[test]
fn drawing_moves_the_generator_on() {
    let mut rng = StdRng::seed_from_u64(5);
    let before = rng.clone();
    let mut one = vec![SampledKey { key: vec![1], child: None }];
    shuffle_read_samples(&mut one, &mut rng);
    assert!(rng == before);
    let mut three: Vec<WriteSample> =
        (0..3u8).map(|i| WriteSample { key: vec![i], size: 1, child: None }).collect();
    shuffle_write_samples(&mut three, &mut rng);
    assert!(rng != before);

    let mut rng2 = StdRng::seed_from_u64(9);
    let start = rng2.clone();
    let mut empty: Vec<u8> = Vec::new();
    redraw_value(&mut empty, &mut rng2);
    assert!(rng2 == start);
    let mut buf = value_buffer(4);
    redraw_value(&mut buf, &mut rng2);
    assert!(rng2 != start);
}

#[test]
fn rolls_move_the_generator_only_when_drawing() {
    let mut rng = StdRng::seed_from_u64(11);
    let start = rng.clone();
    assert_eq!(draw_child_rolls(1, &mut rng), vec![0]);
    assert_eq!(rng, start);
    let rolls = draw_child_rolls(2, &mut rng);
    assert_eq!(rolls[0], 0);
    assert!((1..=100).contains(&rolls[1]));
    assert_ne!(rng, start);
}
