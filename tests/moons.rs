use aoc19::moons::{calc_energy, find_prev, Data};

fn first_example() -> Data {
    Data([(-1, 0, 2), (2, -10, -7), (4, -8, 8), (3, 5, -1)])
}

fn second_example() -> Data {
    Data([(-8, -10, 0), (5, 5, 10), (2, -7, 3), (9, -8, -3)])
}

#[test]
fn day12_part1() {
    assert_eq!(179, calc_energy(first_example(), 10));
    assert_eq!(1940, calc_energy(second_example(), 100));
}

#[test]
fn day12_part2() {
    assert_eq!(2772, find_prev(first_example()));
    assert_eq!(4_686_774_924, find_prev(second_example()));
}

#[test]
fn energy_at_start_is_zero() {
    assert_eq!(0, calc_energy(first_example(), 0));
}
