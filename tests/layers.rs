use aoc19::layers::{Data, Image};
use aoc19::{AocErr, AocResult};

#[test]
fn day08_part1() -> AocResult<()> {
    let data: Data = "123456789012".parse()?;
    let img = Image::from_data(data, 2, 3);
    assert_eq!(img.lowest_layer(), 1);

    Ok(())
}

#[test]
fn day08_part2() -> AocResult<()> {
    let data: Data = "0222112222120000".parse()?;
    let img = Image::from_data(data, 2, 2);
    let img = img.draw_image();
    assert_eq!(&[0, 1], img[0].as_slice());
    assert_eq!(&[1, 0], img[1].as_slice());

    Ok(())
}

#[test]
fn fewest_zeros_picks_first_layer() -> AocResult<()> {
    // layers: [0,1,2,2] [1,1,0,2] [0,0,1,1]; the first two tie on one zero.
    let data: Data = "012211020011".parse()?;
    let img = Image::from_data(data, 2, 2);
    assert_eq!(img.layers_len(), 3);
    assert_eq!(img.layer_size(), 4);
    assert_eq!(img.lowest_layer(), 2);
    assert_eq!(img.layer_digits(1), vec![1, 1, 0, 2]);
    Ok(())
}

#[test]
fn transparent_everywhere_is_black() -> AocResult<()> {
    let data: Data = "2222".parse()?;
    let img = Image::from_data(data, 1, 2).draw_image();
    assert_eq!(vec![vec![0, 0]], img);
    Ok(())
}

#[test]
fn non_digits_are_rejected() {
    match "12a".parse::<Data>() {
        Err(AocErr::Custom(m)) => assert_eq!(m, "No digit"),
        other => panic!("unexpected: {:?}", other.map(|d| d.0)),
    }
}
