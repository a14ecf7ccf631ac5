use slam2d::{next_generation, plan_resampling, resample, systematic_draw, Resampling};

fn picks_of(plan: Resampling) -> Vec<usize> {
    match plan {
        Resampling::Draw(p) => p,
        Resampling::Reset => panic!("expected a draw"),
    }
}

#[test]
fn equal_weights_pick_each_particle_once() {
    let ticks: Vec<u32> = vec![1, 1, 1, 1];
    assert_eq!(systematic_draw(&ticks, 1), vec![0, 1, 2, 3]);
    assert_eq!(systematic_draw(&ticks, 4), vec![0, 1, 2, 3]);
}

#[test]
fn position_on_a_cumulative_weight_stays_with_that_particle() {
    // positions 0, 4, 8, 12 against scaled cumulative weights 4, 8, 12, 16:
    // the walk moves on only once a position exceeds the cumulative weight
    let ticks: Vec<u32> = vec![1, 1, 1, 1];
    assert_eq!(systematic_draw(&ticks, 0), vec![0, 0, 1, 2]);
}

#[test]
fn zero_draw_on_two_equal_weights_keeps_the_first() {
    let ticks: Vec<u32> = vec![1, 1];
    assert_eq!(picks_of(plan_resampling(&ticks, 0)), vec![0, 0]);
}

#[test]
fn offset_shifts_the_walk() {
    // n = 2, total = 4: scaled cumulative weights 6 and 8
    let ticks: Vec<u32> = vec![3, 1];
    // positions 3 and 7
    assert_eq!(systematic_draw(&ticks, 3), vec![0, 1]);
    // positions 2 and 6: 6 does not exceed the first cumulative weight
    assert_eq!(systematic_draw(&ticks, 2), vec![0, 0]);
    assert_eq!(systematic_draw(&ticks, 0), vec![0, 0]);
}

#[test]
fn half_range_draw_maps_to_half_total_offset() {
    let ticks: Vec<u32> = vec![3, 1];
    // offset 4 * 2^31 / 2^32 = 2 exactly
    assert_eq!(picks_of(plan_resampling(&ticks, 0x8000_0000)), vec![0, 0]);
    // a hair above half rounds up to offset 3
    assert_eq!(picks_of(plan_resampling(&ticks, 0x8000_0001)), vec![0, 1]);
    assert_eq!(picks_of(plan_resampling(&ticks, 0)), vec![0, 0]);
}

#[test]
fn largest_draw_reaches_total() {
    let ticks: Vec<u32> = vec![1, 1, 1];
    // offset = ceil(3 * (2^32 - 1) / 2^32) = 3: positions 3, 6, 9
    assert_eq!(picks_of(plan_resampling(&ticks, u32::MAX)), vec![0, 1, 2]);
}

#[test]
fn zero_weight_particles_are_skipped() {
    let ticks: Vec<u32> = vec![0, 2, 0, 2];
    assert_eq!(systematic_draw(&ticks, 1), vec![1, 1, 3, 3]);
    // a walk that starts exactly at zero gives its first slot to the first particle
    assert_eq!(systematic_draw(&ticks, 0), vec![0, 1, 1, 3]);
}

#[test]
fn collapsed_weights_reset_without_draw() {
    let ticks: Vec<u32> = vec![0, 0, 0];
    assert!(matches!(plan_resampling(&ticks, 12345), Resampling::Reset));
    assert!(matches!(resample(&ticks), Resampling::Reset));
}

#[test]
fn empty_population_resets() {
    let ticks: Vec<u32> = Vec::new();
    assert!(matches!(resample(&ticks), Resampling::Reset));
}

#[test]
fn dominant_particle_fills_next_generation() {
    let mut ticks: Vec<u32> = vec![0; 50];
    ticks[17] = 1_000_000;
    for r in [1u32, 0x4000_0000, 0xffff_ffff] {
        let picks = picks_of(plan_resampling(&ticks, r));
        assert_eq!(picks.len(), 50);
        assert!(picks.iter().all(|&p| p == 17));
    }
    // with the first particle dominant, even a walk from zero stays on it
    let mut first: Vec<u32> = vec![0; 50];
    first[0] = 1_000_000;
    let picks = picks_of(resample(&first));
    assert!(picks.iter().all(|&p| p == 0));
}

#[test]
fn random_resample_keeps_population_size() {
    let ticks: Vec<u32> = vec![5, 1, 9, 3, 7, 2];
    for _ in 0..20 {
        let picks = picks_of(resample(&ticks));
        assert_eq!(picks.len(), ticks.len());
        assert!(picks.windows(2).all(|w| w[0] <= w[1]));
        assert!(picks.iter().all(|&p| p < ticks.len() && ticks[p] > 0));
    }
}

#[test]
fn random_resample_counts_stay_within_one_of_share() {
    // particle 0 holds half the weight of 4 slots: 2 copies for a walk that
    // starts above zero, one more when it starts exactly at zero
    let ticks: Vec<u32> = vec![4, 2, 2, 0];
    for _ in 0..20 {
        let picks = picks_of(resample(&ticks));
        let first = picks.iter().filter(|&&p| p == 0).count();
        assert!(first == 2 || first == 3);
        assert_eq!(picks.iter().filter(|&&p| p == 3).count(), 0);
    }
    for r in [1u32, 0x1234_5678, u32::MAX] {
        let picks = picks_of(plan_resampling(&ticks, r));
        assert_eq!(picks, vec![0, 0, 1, 2]);
    }
}

#[test]
fn next_generation_copies_picked_members() {
    let population: Vec<String> = vec!["a".to_string(), "b".to_string(), "c".to_string()];
    let picks: Vec<usize> = vec![2, 2, 0];
    let next = next_generation(&population, &picks);
    assert_eq!(next, vec!["c".to_string(), "c".to_string(), "a".to_string()]);
    assert_eq!(population.len(), 3);
}

#[test]
fn resample_then_copy_keeps_population_size() {
    let population: Vec<(i32, u32)> = vec![(20, 7), (10, 0), (30, 0), (40, 0)];
    let ticks: Vec<u32> = population.iter().map(|p| p.1).collect();
    let picks = picks_of(resample(&ticks));
    let next = next_generation(&population, &picks);
    assert_eq!(next.len(), population.len());
    assert!(next.iter().all(|p| p.0 == 20));
}

#[test]
fn copies_are_share_rounded_down_or_up() {
    let ticks: Vec<u32> = vec![7, 0, 13, 1, 1, 22, 5, 0, 9, 2];
    let n = ticks.len() as u64;
    let total: u64 = ticks.iter().map(|&t| t as u64).sum();
    for r in [1u32, 77_777, 0x7fff_ffff, 0xdead_beef, u32::MAX] {
        let picks = picks_of(plan_resampling(&ticks, r));
        for (j, &t) in ticks.iter().enumerate() {
            let copies = picks.iter().filter(|&&p| p == j).count() as u64;
            let share = n * t as u64;
            assert!(copies * total < share + total);
            assert!(share < copies * total + total);
        }
    }
}
