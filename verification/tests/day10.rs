use advent_25::day10::{
    both, build_choices, parse, part1, part2, solve_joltage, solve_lights, Error, Machine,
};

const EXAMPLE: &str = "[.##.] (3) (1,3) (2) (2,3) (0,2) (0,1) {3,5,4,7}
[...#.] (0,2,3,4) (2,3) (0,4) (0,1,2) (1,2,3,4) {7,5,12,7,2}
[.###.#] (0,1,2,3,4) (0,3,4) (0,1,2,4,5) (1,2) {10,11,11,5,10,5}";

#[test]
fn test_example_part1() {
    assert_eq!(part1(EXAMPLE).unwrap(), 7);
}

#[test]
fn test_example_part2() {
    assert_eq!(part2(EXAMPLE).unwrap(), 33);
}

#[test]
fn test_both() {
    let (p1, p2) = both(EXAMPLE).unwrap();
    assert_eq!(p1, 7);
    assert_eq!(p2, 33);
}

#[test]
fn machines_are_read_from_their_lines() {
    let machines = parse(b"\nnothing here\r\n[.##.] (3) (1,3) (3,1) () {3,5,4,7}\r\n").unwrap();
    assert_eq!(machines.len(), 1);
    assert_eq!(machines[0].target, 0b0110);
    assert_eq!(machines[0].lights, 4);
    assert_eq!(machines[0].buttons, vec![0b1000, 0b1010]);
    assert_eq!(machines[0].joltages, vec![3, 5, 4, 7]);
}

#[test]
fn each_day10_error() {
    assert_eq!(part1("[.#. (1) {1,2,3}"), Err(Error::Unclosed));
    assert_eq!(part1("[.#.] (1 {1,2}"), Err(Error::Unclosed));
    assert_eq!(part1("[.#.] (1) {1,2,3"), Err(Error::Unclosed));
    assert_eq!(part1("[.................] (1) {1}"), Err(Error::TooManyLights));
    assert_eq!(part1("[.#.] (3) {1,2,3}"), Err(Error::BadButton));
    assert_eq!(part1("[.#.] (16) {1,2,3}"), Err(Error::BadButton));
    assert_eq!(part1("[.#.] (1) {1,2,65536}"), Err(Error::NumberTooLarge));
    assert_eq!(part1("[.#.] (1)"), Err(Error::MissingJoltages));
    assert_eq!(part1("[.#.] (1) {1,2}"), Err(Error::Mismatch));
    assert_eq!(part1("[.#.] (0) {0,0,0}"), Err(Error::Unsolvable));
    assert_eq!(part2("[...] (0) (0,1) {1,2,0}"), Err(Error::Unsolvable));
    assert_eq!(part2("[...] (0) (0,1) {2,1,1}"), Err(Error::Unsolvable));
    let mut many = String::from("[.....]");
    for mask in 1..18 {
        many.push_str(" (");
        for bit in 0..5 {
            if mask >> bit & 1 == 1 {
                many.push_str(&format!("{},", bit));
            }
        }
        many.push(')');
    }
    many.push_str(" {0,0,0,0,0}");
    assert_eq!(part1(&many), Err(Error::TooManyButtons));
}

#[test]
fn lights_take_the_fewest_presses() {
    let machine = Machine {
        target: 0b111,
        lights: 3,
        buttons: vec![0b001, 0b010, 0b100, 0b111, 0b011],
        joltages: vec![0, 0, 0],
    };
    assert_eq!(solve_lights(&machine), Some(1));
    let none = Machine { target: 0, lights: 3, buttons: vec![0b001], joltages: vec![0, 0, 0] };
    assert_eq!(solve_lights(&none), Some(0));
    assert_eq!(solve_joltage(&none), Some(0));
}

#[test]
fn counters_take_the_fewest_presses() {
    let machine = Machine {
        target: 0,
        lights: 3,
        buttons: vec![0b001, 0b010, 0b100, 0b111, 0b011],
        joltages: vec![10, 12, 10],
    };
    // ten presses of all three, two presses of the middle one
    assert_eq!(solve_joltage(&machine), Some(12));
    let single = Machine { target: 0, lights: 2, buttons: vec![0b01, 0b10], joltages: vec![65535, 1] };
    assert_eq!(solve_joltage(&single), Some(65536));
}

#[test]
fn counters_match_a_search_through_all_presses() {
    let buttons: Vec<u16> = vec![0b0011, 0b0110, 0b1100, 0b1001, 0b0101];
    for a in 0..6u16 {
        for b in 0..6u16 {
            let joltages = vec![a + 3, b + 2, a + b, 4];
            let mut best: Option<u64> = None;
            let limit = 12u16;
            for x0 in 0..limit {
                for x1 in 0..limit {
                    for x2 in 0..limit {
                        for x3 in 0..limit {
                            for x4 in 0..limit {
                                let x = [x0, x1, x2, x3, x4];
                                let ok = (0..4).all(|r| {
                                    let sum: u16 = (0..5)
                                        .filter(|&i| buttons[i] >> r & 1 == 1)
                                        .map(|i| x[i])
                                        .sum();
                                    sum == joltages[r]
                                });
                                if ok {
                                    let cost = x.iter().map(|&v| v as u64).sum();
                                    best = Some(best.map_or(cost, |c: u64| c.min(cost)));
                                }
                            }
                        }
                    }
                }
            }
            let machine = Machine { target: 0, lights: 4, buttons: buttons.clone(), joltages };
            assert_eq!(solve_joltage(&machine), best);
        }
    }
}

#[test]
fn choices_hold_every_set_of_buttons() {
    let choices = build_choices(&vec![0b01, 0b11], 2);
    let seen: Vec<(Vec<u16>, u32)> = choices.iter().map(|c| (c.effect.clone(), c.count)).collect();
    assert_eq!(
        seen,
        vec![(vec![0, 0], 0), (vec![1, 0], 1), (vec![1, 1], 1), (vec![2, 1], 2)]
    );
}

#[test]
fn a_wide_machine_with_large_counters() {
    let text = "[..........] (0,1,2) (1,2,3) (2,3,4) (3,4,5) (4,5,6) (5,6,7) (6,7,8) (7,8,9) (0,9) (1,5) (2,6) (3,7) (4,8) {113,187,201,225,240,231,228,190,170,95}";
    let _ = part2(text);
}
