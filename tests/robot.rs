use aoc19::intcode::Data;
use aoc19::robot::{paint, run, Color, Dir, CENTER, SIDE};
use aoc19::{AocErr, AocResult};

fn two_moves() -> AocResult<Data> {
    // paint white and turn left, then paint black and turn left, then halt
    "3,100,104,1,104,0,3,100,104,0,104,0,99".parse()
}

#[test]
fn robot_counts_painted_panels() -> AocResult<()> {
    assert_eq!(2, run(two_moves()?, Color::Black)?);
    Ok(())
}

#[test]
fn robot_paints_and_turns() -> AocResult<()> {
    let hull = paint(two_moves()?, Color::White)?;
    assert_eq!(SIDE * SIDE, hull.len());
    assert_eq!((Color::White, 1), hull[CENTER * SIDE + CENTER]);
    assert_eq!((Color::Black, 1), hull[CENTER * SIDE + CENTER - 1]);
    assert_eq!((Color::White, 0), hull[0]);
    Ok(())
}

#[test]
fn robot_rejects_unknown_colour() -> AocResult<()> {
    let data: Data = "104,5,104,0,99".parse()?;
    assert!(matches!(run(data, Color::Black), Err(AocErr::Custom(_))));
    Ok(())
}

#[test]
fn colours_and_turns() {
    assert!(matches!(Color::try_from(1), Ok(Color::White)));
    assert!(matches!(Color::try_from(2), Err(AocErr::Custom(_))));
    assert_eq!(0, Color::Black.to_u8());
    assert_eq!(Dir::East, Dir::North.next_right());
    assert_eq!(Dir::West, Dir::North.next_left());
    assert_eq!((4, 5), Dir::South.next_pos((4, 4)));
}
