use aoc19::decode::{decode, Opcode, Value};
use aoc19::intcode::{run, Context, Data};
use aoc19::machine::MAX_STEPS;
use aoc19::parse::parse_data;
use aoc19::{AocErr, AocResult};

#[test]
fn test_jump() -> AocResult<()> {
    let data: Data = "3,21,1008,21,8,20,1005,20,22,107,8,21,20,1006,20,31,1106,0,36,98,0,0,1002,21,125,20,4,20,1105,1,46,104,999,1105,1,46,1101,1000,1,20,4,20,1105,1,46,98,99".parse()?;

    assert_eq!(999, run(data.clone(), 7)?);
    assert_eq!(1000, run(data.clone(), 8)?);
    assert_eq!(1001, run(data.clone(), 9)?);

    Ok(())
}

#[test]
fn day09_part1() -> AocResult<()> {
    let data: Data = "109,1,204,-1,1001,100,1,100,1008,100,16,101,1006,101,0,99".parse()?;
    let mut ctx = Context::from_data_fill_up(data.clone(), &[]);
    ctx.exec()?;
    assert_eq!(data.0.as_slice(), &ctx.data()[..data.0.len()]);
    assert_eq!(data.0.as_slice(), ctx.outputs());
    assert!(ctx.halted());

    let data: Data = "1102,34915192,34915192,7,4,7,99,0".parse()?;
    let mut ctx = Context::from_data_fill_up(data, &[]);
    ctx.exec()?;
    assert!(1_000_000_000_000_000 <= ctx.output().unwrap());
    assert_eq!(Some(1_219_070_632_396_864), ctx.output());
    assert!(ctx.halted());

    let data: Data = "104,1125899906842624,99".parse()?;
    let mut ctx = Context::from_data_fill_up(data, &[]);
    ctx.exec()?;
    assert_eq!(1_125_899_906_842_624, ctx.output().unwrap());
    assert_eq!(&[1_125_899_906_842_624], ctx.outputs());
    assert!(ctx.halted());

    Ok(())
}

#[test]
fn day02_example_program() -> AocResult<()> {
    let data: Data = "1,9,10,3,2,3,11,0,99,30,40,50".parse()?;
    let mut ctx = Context::from_data(data, &[]);
    ctx.resume()?;
    assert_eq!(3500, ctx.read(0));
    assert!(ctx.halted());
    Ok(())
}

#[test]
fn day02_test1() -> AocResult<()> {
    let data: Data = "1,1,1,4,99,5,6,0,99".parse()?;
    let mut ctx = Context::from_data(data, &[]);
    ctx.resume()?;

    assert_eq!(30, ctx.read(0));

    Ok(())
}

#[test]
fn add_mul_program_is_reproducible() -> AocResult<()> {
    let data: Data = "1,1,1,4,99,5,6,0,99".parse()?;
    let mut a = Context::from_data(data.clone(), &[]);
    let mut b = Context::from_data(data, &[]);
    a.resume()?;
    b.resume()?;
    assert_eq!(a.data(), b.data());
    assert_eq!(&[30, 1, 1, 4, 2, 5, 6, 0, 99], a.data());
    Ok(())
}

#[test]
fn resume_yields_after_each_output() -> AocResult<()> {
    let data: Data = "104,1,104,2,104,3,99".parse()?;
    let mut ctx = Context::from_data(data, &[]);
    assert_eq!(1, ctx.resume()?);
    assert_eq!(&[1], ctx.outputs());
    assert!(!ctx.halted());
    ctx.resume()?;
    assert_eq!(&[1, 2], ctx.outputs());
    ctx.resume()?;
    assert_eq!(&[1, 2, 3], ctx.outputs());
    assert!(!ctx.halted());
    assert_eq!(1, ctx.resume()?);
    assert_eq!(&[1, 2, 3], ctx.outputs());
    assert!(ctx.halted());
    assert_eq!(0, ctx.resume()?);
    assert_eq!(&[1, 2, 3], ctx.outputs());
    assert_eq!(Ok(3), ctx.exec());
    Ok(())
}

#[test]
fn input_starvation_keeps_pc() -> AocResult<()> {
    let data: Data = "3,0,4,0,99".parse()?;
    let mut ctx = Context::from_data(data, &[]);
    assert_eq!(Err(AocErr::NotEnoughInputs), ctx.resume());
    assert_eq!(&[3, 0, 4, 0, 99], ctx.data());
    ctx.push_input(42);
    assert_eq!(2, ctx.resume()?);
    assert_eq!(Some(42), ctx.output());
    Ok(())
}

#[test]
fn starvation_after_progress() -> AocResult<()> {
    let data: Data = "3,9,3,10,99,0,0,0,0,0,0".parse()?;
    let mut ctx = Context::from_data(data, &[5]);
    assert_eq!(Err(AocErr::NotEnoughInputs), ctx.resume());
    assert_eq!(5, ctx.read(9));
    ctx.push_input(6);
    ctx.resume()?;
    assert_eq!(6, ctx.read(10));
    assert!(ctx.halted());
    Ok(())
}

#[test]
fn relative_mode_round_trip() -> AocResult<()> {
    // base += 10; in -> [base+0]; base += 3; out [base-3]; halt
    let data: Data = "109,10,203,0,109,3,204,-3,99,0,0,0,0,0".parse()?;
    let mut ctx = Context::from_data(data, &[77]);
    assert_eq!(77, ctx.exec()?);
    assert_eq!(77, ctx.read(10));
    Ok(())
}

#[test]
fn invalid_opcode_is_reported() -> AocResult<()> {
    let data: Data = "42,0,0,0".parse()?;
    let mut ctx = Context::from_data(data, &[]);
    assert_eq!(Err(AocErr::InvalidOpcode(42)), ctx.resume());
    let data: Data = "30001,0,0,0,99".parse()?;
    let mut ctx = Context::from_data(data, &[]);
    assert_eq!(Err(AocErr::InvalidOpcode(30001)), ctx.resume());
    Ok(())
}

#[test]
fn out_of_bounds_is_reported() -> AocResult<()> {
    let data: Data = "1,0,0,100,99".parse()?;
    let mut ctx = Context::from_data(data, &[]);
    assert_eq!(Err(AocErr::OutOfBounds), ctx.resume());
    assert_eq!(&[1, 0, 0, 100, 99], ctx.data());
    let data: Data = "1,0,0".parse()?;
    let mut ctx = Context::from_data(data, &[]);
    assert_eq!(Err(AocErr::OutOfBounds), ctx.resume());
    Ok(())
}

#[test]
fn immediate_write_is_reported() -> AocResult<()> {
    let data: Data = "11101,1,1,0,99".parse()?;
    let mut ctx = Context::from_data(data, &[]);
    assert_eq!(Err(AocErr::ImmediateWrite), ctx.resume());
    Ok(())
}

#[test]
fn overflow_is_reported() -> AocResult<()> {
    let data: Data = "1102,9223372036854775807,2,0,99".parse()?;
    let mut ctx = Context::from_data(data, &[]);
    assert_eq!(Err(AocErr::Overflow), ctx.resume());
    Ok(())
}

#[test]
fn runaway_program_is_reported() -> AocResult<()> {
    let data: Data = "1105,1,0".parse()?;
    let mut ctx = Context::from_data(data, &[]);
    assert_eq!(Err(AocErr::ExceededMaxSteps), ctx.resume());
    assert_eq!(Err(AocErr::ExceededMaxSteps), ctx.exec());
    assert!(MAX_STEPS > 0);
    Ok(())
}

#[test]
fn halting_without_output() -> AocResult<()> {
    let data: Data = "99".parse()?;
    let mut ctx = Context::from_data(data, &[]);
    assert_eq!(Err(AocErr::NoOutput), ctx.exec());
    assert!(ctx.halted());
    Ok(())
}

#[test]
fn reserved_space_is_zeroed() -> AocResult<()> {
    let data: Data = "99".parse()?;
    let ctx = Context::from_data_reserved(data.clone(), &[], 5);
    assert_eq!(&[99, 0, 0, 0, 0], ctx.data());
    let ctx = Context::from_data_fill_up(data, &[]);
    assert_eq!(16_000, ctx.data().len());
    Ok(())
}

#[test]
fn decode_modes() {
    let mem = [1002, 4, 3, 4, 33];
    match decode(&mem, 0) {
        Ok((Opcode::Mul(Value::Position(4), Value::Immediate(3), Value::Position(4)), 4)) => {}
        other => panic!("unexpected decode: {:?}", other),
    }
    match decode(&mem, 4) {
        Err(AocErr::InvalidOpcode(33)) => {}
        other => panic!("unexpected decode: {:?}", other),
    }
    let mem = [100001, 0, 0, 0];
    match decode(&mem, 0) {
        Ok((Opcode::Add(Value::Position(0), Value::Position(0), Value::Position(0)), 4)) => {}
        other => panic!("unexpected decode: {:?}", other),
    }
    let mem = [204, -1];
    match decode(&mem, 0) {
        Ok((Opcode::Out(Value::Relative(-1)), 2)) => {}
        other => panic!("unexpected decode: {:?}", other),
    }
}

#[test]
fn parse_images() {
    assert_eq!(vec![1, -2, 3], parse_data("1,-2,+3\n").unwrap().0);
    assert_eq!(vec![-9223372036854775808], parse_data("-9223372036854775808").unwrap().0);
    assert_eq!(Err(AocErr::ParseIntError), parse_data("9223372036854775808").map(|d| d.0));
    assert_eq!(Err(AocErr::ParseIntError), parse_data("1,,2").map(|d| d.0));
    assert_eq!(Err(AocErr::ParseIntError), parse_data("1,x").map(|d| d.0));
    assert_eq!(Err(AocErr::ParseIntError), parse_data("").map(|d| d.0));
}
