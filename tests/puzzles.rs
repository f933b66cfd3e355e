use proximity::dial;
use proximity::doubled::{self, doubled_in_range};
use proximity::grid::{count_adjacent, is_removable, zero_padding};
use proximity::joltage::{self, find_optimal_joltage};
use proximity::manifold::{simulate_manifold, State};
use proximity::ranges::{self, in_any, merge_range_groups};
use proximity::worksheet::{self, group_value, transpose, Operator};

fn sample_rotations() -> Vec<i32> {
    vec![-68, -30, 48, -5, 60, -55, -1, -99, 14, -82]
}

#[test]
fn dial_rests_at_zero_in_sample() {
    assert_eq!(dial::first_challenge(&sample_rotations()), 3);
}

#[test]
fn dial_clicks_at_zero_in_sample() {
    assert_eq!(dial::second_challenge(&sample_rotations()), 6);
}

#[test]
fn dial_full_turns_count_each_pass() {
    assert_eq!(dial::second_challenge(&vec![1000]), 10);
    assert_eq!(dial::second_challenge(&vec![-1000]), 10);
    assert_eq!(dial::second_challenge(&vec![-50, 100]), 2);
    assert_eq!(dial::first_challenge(&vec![-50, 100]), 2);
    assert_eq!(dial::first_challenge(&vec![]), 0);
    assert_eq!(dial::second_challenge(&vec![49]), 0);
}

fn sample_ranges() -> Vec<(u64, u64)> {
    vec![(3, 5), (10, 14), (16, 20), (12, 18)]
}

#[test]
fn fresh_ids_in_sample() {
    assert_eq!(ranges::first_challenge(&sample_ranges(), &vec![1, 5, 8, 11, 17, 32]), 3);
    assert!(in_any(&sample_ranges(), 20));
    assert!(!in_any(&sample_ranges(), 21));
}

#[test]
fn union_size_in_sample() {
    assert_eq!(ranges::second_challenge(sample_ranges()), 14);
}

#[test]
fn ranges_merge_into_sorted_disjoint_cover() {
    assert_eq!(merge_range_groups(sample_ranges()), vec![(3, 5), (10, 20)]);
    assert_eq!(merge_range_groups(vec![(8, 9), (1, 2), (2, 8)]), vec![(1, 9)]);
    assert_eq!(merge_range_groups(vec![(5, 6), (1, 2)]), vec![(1, 2), (5, 6)]);
    assert_eq!(merge_range_groups(vec![]), vec![]);
    assert_eq!(ranges::second_challenge(vec![(0, u64::MAX)]), 1u128 << 64);
}

fn sample_grid() -> Vec<Vec<u8>> {
    let rows = [
        "..@@.@@@@.",
        "@@@.@.@.@@",
        "@@@@@.@.@@",
        "@.@@@@..@.",
        "@@.@@@@.@@",
        ".@@@@@@@.@",
        ".@.@.@.@@@",
        "@.@@@.@@@@",
        ".@@@@@@@@.",
        "@.@.@@@.@.",
    ];
    rows.iter()
        .map(|r| r.chars().map(|c| if c == '@' { 1 } else { 0 }).collect())
        .collect()
}

#[test]
fn accessible_rolls_in_sample() {
    assert_eq!(proximity::grid::first_challenge(sample_grid()), 13);
}

#[test]
fn padding_adds_a_zero_border() {
    let p = zero_padding(vec![vec![1, 0], vec![0, 1]]);
    assert_eq!(
        p,
        vec![vec![0, 0, 0, 0], vec![0, 1, 0, 0], vec![0, 0, 1, 0], vec![0, 0, 0, 0]]
    );
}

#[test]
fn removable_rolls_need_fewer_than_four_neighbours() {
    let m = vec![
        vec![0, 0, 0, 0, 0],
        vec![0, 1, 1, 1, 0],
        vec![0, 1, 1, 1, 0],
        vec![0, 0, 0, 0, 0],
    ];
    assert!(is_removable(&m, 1, 1));
    assert!(!is_removable(&m, 1, 2));
    assert!(!is_removable(&m, 0, 0));
    assert_eq!(count_adjacent(&m), 4);
}

fn sample_banks() -> Vec<Vec<u8>> {
    ["987654321111111", "811111111111119", "234234234234278", "818181911112111"]
        .iter()
        .map(|r| r.bytes().map(|b| b - b'0').collect())
        .collect()
}

#[test]
fn best_two_batteries_in_sample() {
    assert_eq!(joltage::first_challenge(&sample_banks()), 357);
}

#[test]
fn best_twelve_batteries_in_sample() {
    assert_eq!(joltage::second_challenge(&sample_banks()), 3121910778619);
}

#[test]
fn optimal_joltage_picks_digits_in_order() {
    let banks = sample_banks();
    assert_eq!(find_optimal_joltage(&banks[0], 12), 987654321111);
    assert_eq!(find_optimal_joltage(&banks[2], 12), 434234234278);
    assert_eq!(find_optimal_joltage(&banks[3], 2), 92);
    assert_eq!(find_optimal_joltage(&vec![1, 9], 2), 19);
    assert_eq!(find_optimal_joltage(&vec![3, 1, 4], 3), 314);
}

#[test]
fn worksheet_columns_in_sample() {
    let rows = vec![vec![123, 328, 51, 64], vec![45, 64, 387, 23], vec![6, 98, 215, 314]];
    let cols = transpose(&rows, 4);
    assert_eq!(cols[0], vec![123, 45, 6]);
    let ops = vec![Operator::Multiply, Operator::Add, Operator::Multiply, Operator::Add];
    assert_eq!(worksheet::first_challenge(&cols, &ops), Some(4277556));
}

#[test]
fn worksheet_digit_columns_in_sample() {
    let groups = vec![vec![4, 431, 623], vec![175, 581, 32], vec![8, 248, 369], vec![356, 24, 1]];
    let ops = vec![Operator::Add, Operator::Multiply, Operator::Add, Operator::Multiply];
    assert_eq!(worksheet::second_challenge(&groups, &ops), Some(3263827));
}

#[test]
fn worksheet_overflow_is_reported() {
    assert_eq!(group_value(&vec![u64::MAX, 2], Operator::Multiply), None);
    assert_eq!(group_value(&vec![u64::MAX, 0], Operator::Add), Some(u64::MAX));
    assert_eq!(group_value(&vec![], Operator::Multiply), Some(1));
    assert_eq!(
        worksheet::first_challenge(&vec![vec![u64::MAX], vec![1]], &vec![Operator::Add, Operator::Add]),
        None
    );
}

#[test]
fn removable_rolls_until_stable_in_sample() {
    assert_eq!(proximity::grid::second_challenge(sample_grid()), 43);
}

#[test]
fn solid_blocks_erode_from_their_corners() {
    let g = vec![vec![1, 1, 1], vec![1, 1, 1], vec![1, 1, 1]];
    assert_eq!(proximity::grid::first_challenge(g.clone()), 4);
    assert_eq!(proximity::grid::second_challenge(g), 9);
    let block = vec![vec![1, 1, 1, 1], vec![1, 1, 1, 1], vec![1, 1, 1, 1], vec![1, 1, 1, 1]];
    assert_eq!(proximity::grid::second_challenge(block), 4);
}

fn sample_manifold() -> Vec<Vec<State>> {
    let rows = [
        ".......S.......",
        "...............",
        ".......^.......",
        "...............",
        "......^.^......",
        "...............",
        ".....^.^.^.....",
        "...............",
        "....^.^...^....",
        "...............",
        "...^.^...^.^...",
        "...............",
        "..^...^.....^..",
        "...............",
        ".^.^.^.^.^...^.",
        "...............",
    ];
    rows.iter()
        .map(|r| {
            r.chars()
                .map(|c| match c {
                    'S' => State::Source,
                    '^' => State::Splitter,
                    '|' => State::Beam(1),
                    _ => State::Beam(0),
                })
                .collect()
        })
        .collect()
}

#[test]
fn splits_in_sample_manifold() {
    assert_eq!(proximity::manifold::first_challenge(&sample_manifold()), Some(21));
}

#[test]
fn beams_reaching_last_row_in_sample() {
    assert_eq!(proximity::manifold::second_challenge(&sample_manifold()), Some(40));
}

#[test]
fn manifold_edge_cases() {
    assert_eq!(simulate_manifold(&vec![]), None);
    let m = vec![
        vec![State::Beam(0), State::Source, State::Beam(0)],
        vec![State::Beam(0), State::Splitter, State::Beam(0)],
        vec![State::Beam(0), State::Beam(0), State::Beam(0)],
    ];
    let (rows, splits) = simulate_manifold(&m).unwrap();
    assert_eq!(splits, 0);
    assert_eq!(rows[2], vec![State::Beam(0), State::Beam(0), State::Beam(0)]);
    let blocked = vec![
        vec![State::Source, State::Beam(0)],
        vec![State::Beam(0), State::Beam(0)],
        vec![State::Splitter, State::Splitter],
    ];
    assert_eq!(simulate_manifold(&blocked), None);
}

#[test]
fn doubled_ids_in_sample() {
    let ranges: Vec<(u64, u64)> = vec![
        (11, 22),
        (95, 115),
        (998, 1012),
        (1188511880, 1188511890),
        (222220, 222224),
        (1698522, 1698528),
        (446443, 446449),
        (38593856, 38593862),
        (565653, 565659),
        (824824821, 824824827),
        (2121212118, 2121212124),
    ];
    assert_eq!(doubled::first_challenge(&ranges), Some(1227775554));
}

#[test]
fn doubled_ids_in_small_ranges() {
    assert_eq!(doubled_in_range(10, 100), 495);
    assert_eq!(doubled_in_range(1, 10), 0);
    assert_eq!(doubled_in_range(1010, 1010), 1010);
    assert_eq!(doubled_in_range(1011, 1099), 0);
    assert_eq!(doubled::first_challenge(&vec![]), Some(0));
}
