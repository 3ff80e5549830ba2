use aoc19::wires::{parse_dir, Circuit, Data, Dir, Point2, Wire};
use aoc19::{AocErr, AocResult};

#[test]
fn day03_test1() -> AocResult<()> {
    let data: Data = "R98,U47,R26,D63,R33,U87,L52,U47,R42\nU98,R91,D20,R16,D67,R40,U7,R15,U6,R7\n".parse()?;
    let circuit = Circuit::from_data(&data);

    assert_eq!(circuit.shortest_dist_intersection(), 135);
    assert_eq!(circuit.find_shortest_int_steps(), 410);

    Ok(())
}

#[test]
fn test2() -> AocResult<()> {
    let data: Data = "R75,D30,R83,U83,L12,D49,R71,U7,L72\nU62,R66,U55,R34,D71,R55,D58,R83\n".parse()?;
    let circuit = Circuit::from_data(&data);

    assert_eq!(circuit.shortest_dist_intersection(), 159);
    assert_eq!(circuit.find_shortest_int_steps(), 610);

    Ok(())
}

#[test]
fn small_crossing() -> AocResult<()> {
    let data: Data = "R8,U5,L5,D3\nU7,R6,D4,L4".parse()?;
    let circuit = Circuit::from_data(&data);
    assert_eq!(circuit.shortest_dist_intersection(), 6);
    assert_eq!(circuit.find_shortest_int_steps(), 30);
    Ok(())
}

#[test]
fn wire_parsing() -> AocResult<()> {
    let w: Wire = "U7,R6,D4,L4".parse()?;
    assert_eq!(4, w.0.len());
    assert!(matches!(w.0[0], Dir::Up(7)));
    assert!(matches!(w.0[3], Dir::Left(4)));
    assert!(matches!(parse_dir(&['D', '1', '2']), Ok(Dir::Down(12))));
    assert!(matches!(parse_dir(&[]), Err(AocErr::Custom(_))));
    assert!(matches!(parse_dir(&['X', '1']), Err(AocErr::Custom(_))));
    assert!(matches!(parse_dir(&['R', 'x']), Err(AocErr::ParseIntError)));
    assert!(matches!("R1\nU1\nL1".parse::<Data>(), Err(AocErr::Custom(_))));
    assert!(matches!("R1,\nU1".parse::<Data>(), Err(AocErr::Custom(_))));
    Ok(())
}

#[test]
fn point_distance() {
    assert_eq!(7, Point2(3, -4).dist(&Point2(0, 0)));
    assert_eq!(Point2(2, 5), Point2(1, 7).add(1, -2));
}
