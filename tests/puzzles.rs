use aoc19::amplifiers::{exec_amps, exec_amps2, find_max_signal, find_max_signal2, settings_perm};
use aoc19::fuel::{calc_fuel, calc_total_fuel};
use aoc19::helper::{dir, point2d};
use aoc19::intcode::Data;
use aoc19::password::{is_valid_pw, is_valid_pw2};
use aoc19::paths::{day_path, file_path, FileType};
use aoc19::rename::new_name;
use aoc19::{custom_error, AocErr, AocResult};

#[test]
fn test_total() {
    assert_eq!(calc_total_fuel(14), 2);
    assert_eq!(calc_total_fuel(1969), 966);
}

#[test]
fn fuel_examples() {
    assert_eq!(calc_fuel(12), 2);
    assert_eq!(calc_fuel(1969), 654);
    assert_eq!(calc_fuel(100756), 33583);
    assert_eq!(calc_fuel(1), -2);
    assert_eq!(calc_total_fuel(100756), 50346);
    assert_eq!(calc_total_fuel(0), 0);
}

#[test]
fn day04_part1() -> AocResult<()> {
    assert!(is_valid_pw(111_111));
    assert!(!is_valid_pw(223_450));
    assert!(!is_valid_pw(123_789));

    let n = (234_208..765_869).filter(|&pw| is_valid_pw(pw)).count();

    assert_eq!(n, 1246);
    Ok(())
}

#[test]
fn day04_part2() -> AocResult<()> {
    assert!(is_valid_pw2(112_233));
    assert!(!is_valid_pw2(123_444));
    assert!(is_valid_pw2(111_122));

    let n = (234_208..765_869).filter(|&pw| is_valid_pw2(pw)).count();

    assert_eq!(n, 814);

    Ok(())
}

#[test]
fn password_range() {
    assert!(!is_valid_pw(99_999));
    assert!(!is_valid_pw(1_000_000));
    assert!(!is_valid_pw2(11));
}

#[test]
fn test_rename() {
    assert_eq!("in_01.data", &new_name("in_01_01.data"));
    assert_eq!("in_01.data", &new_name("in_09_01.data"));
}

#[test]
fn rename_short_names() {
    assert_eq!("plain.data", &new_name("plain.data"));
    assert_eq!("a", &new_name("a_b"));
    assert_eq!("a_c_d", &new_name("a_b_c_d"));
}

#[test]
fn part1_test() -> AocResult<()> {
    let data: Data = "3,15,3,16,1002,16,10,16,1,16,15,15,4,15,99,0,0".parse()?;
    assert_eq!(exec_amps(&data, [4, 3, 2, 1, 0], 0)?, 43210);

    let data: Data = "3,23,3,24,1002,24,10,24,1002,23,-1,23,101,5,23,23,1,24,23,23,4,23,99,0,0".parse()?;
    assert_eq!(exec_amps(&data, [0, 1, 2, 3, 4], 0)?, 54321);

    let data: Data = "3,31,3,32,1002,32,10,32,1001,31,-2,31,1007,31,0,33,1002,33,7,33,1,33,31,31,1,32,31,31,4,31,99,0,0,0".parse()?;
    assert_eq!(exec_amps(&data, [1, 0, 4, 3, 2], 0)?, 65210);

    Ok(())
}

#[test]
fn day07_part1() -> AocResult<()> {
    let data: Data = "3,15,3,16,1002,16,10,16,1,16,15,15,4,15,99,0,0".parse()?;
    assert_eq!(find_max_signal(data, 0)?, 43210);

    Ok(())
}

#[test]
fn day07_part2() -> AocResult<()> {
    let data: Data = "3,26,1001,26,-4,26,3,27,1002,27,2,27,1,27,26,27,4,27,1001,28,-1,28,1005,28,6,99,0,0,5".parse()?;
    assert_eq!(find_max_signal2(data, 0)?, 139_629_729);

    Ok(())
}

#[test]
fn feedback_loop_single_setting() -> AocResult<()> {
    let data: Data = "3,26,1001,26,-4,26,3,27,1002,27,2,27,1,27,26,27,4,27,1001,28,-1,28,1005,28,6,99,0,0,5".parse()?;
    assert_eq!(exec_amps2(&data, [9, 8, 7, 6, 5], 0)?, 139_629_729);
    Ok(())
}

#[test]
fn all_phase_settings() {
    let perms = settings_perm(0);
    assert_eq!(perms.len(), 120);
    assert_eq!(perms[0], [0, 1, 2, 3, 4]);
    assert_eq!(perms[119], [4, 3, 2, 1, 0]);
    for w in perms.windows(2) {
        assert!(w[0] < w[1]);
    }
    for p in perms.iter() {
        let mut seen = [false; 5];
        for &x in p.iter() {
            assert!(x < 5);
            assert!(!seen[x as usize]);
            seen[x as usize] = true;
        }
    }
}

#[test]
fn custom_errors_keep_message() {
    assert_eq!(custom_error("boom"), AocErr::Custom("boom".to_string()));
}

#[test]
fn point_moves() {
    let p = point2d::Point2D::new(2, 3);
    assert_eq!(p.add(-2, 1), point2d::Point2D(0, 4));
    assert_eq!(p.into_index(), Some((2, 3)));
    assert_eq!(point2d::Point2D(-1, 0).into_index(), None);
    let d = point2d::Dir::North;
    assert_eq!(d.right(), point2d::Dir::East);
    assert_eq!(d.left(), point2d::Dir::West);
    assert_eq!(d.next_pos(&p), point2d::Point2D(2, 2));
    assert_eq!(point2d::Dir::West.next_pos(&p), point2d::Point2D(2, 2));
}

#[test]
fn compass_offsets() {
    assert_eq!(dir::Dir::North.offset(), (0, -1));
    assert_eq!(dir::Dir::South.offset(), (0, 1));
    assert_eq!(dir::Dir::East.right(), dir::Dir::South);
    assert_eq!(dir::Dir::East.left(), dir::Dir::North);
    assert_eq!(dir::Dir::West.offset(), (-1, 0));
}

#[test]
fn data_file_paths() {
    assert_eq!("data/09", day_path(9));
    assert_eq!("data/123", day_path(123));
    assert_eq!("data/09/in_01.data", file_path(FileType::Input, 9, 1));
    assert_eq!("data/14/ex_03.data", file_path(FileType::Example, 14, 3));
    assert_eq!("in", FileType::Input.to_string());
}

#[test]
fn masses_one_per_line() -> AocResult<()> {
    let v: aoc19::parse::ParseLineVec<u64> = "12\n14\n1969\n100756\n".parse()?;
    assert_eq!(v.0, vec![12, 14, 1969, 100756]);
    let s: i64 = v.0.iter().map(|&m| calc_fuel(m)).sum();
    assert_eq!(s, 34241);
    let v: aoc19::parse::ParseLineVec<u64> = "1\r\n+2".parse()?;
    assert_eq!(v.0, vec![1, 2]);
    let v: aoc19::parse::ParseLineVec<u64> = "".parse()?;
    assert!(v.0.is_empty());
    assert!("1\n\n2".parse::<aoc19::parse::ParseLineVec<u64>>().is_err());
    assert!("-1".parse::<aoc19::parse::ParseLineVec<u64>>().is_err());
    assert!("18446744073709551616".parse::<aoc19::parse::ParseLineVec<u64>>().is_err());
    let v: aoc19::parse::ParseLineVec<u64> = "18446744073709551615".parse()?;
    assert_eq!(v.0, vec![u64::MAX]);
    Ok(())
}

#[test]
fn compass_moves() {
    assert_eq!(dir::Dir::North.next_pos((3, 3)), (3, 2));
    assert_eq!(dir::Dir::West.next_pos((3, 3)), (2, 3));
    assert_eq!(dir::offset_pos((5, 0), (-5, 7)), (0, 7));
}
