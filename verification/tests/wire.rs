use librtbit_tracker_comms::wire::{be_digits, s_to_arr, split_slice, ParseNum};

#[test]
fn digits_are_big_endian() {
    assert_eq!(be_digits(0x0102, 4), vec![0, 0, 1, 2]);
    assert_eq!(be_digits(0x01_0203, 2), vec![2, 3]);
    assert_eq!(be_digits(7, 0), Vec::<u8>::new());
}

#[test]
fn split_slice_splits_or_refuses() {
    let bytes = [1u8, 2, 3];
    assert_eq!(split_slice(&bytes, 2), Some((&bytes[..2], &bytes[2..])));
    assert_eq!(split_slice(&bytes, 3), Some((&bytes[..], &bytes[3..])));
    assert_eq!(split_slice(&bytes, 4), None);
}

#[test]
fn slice_to_array() {
    assert_eq!(s_to_arr::<3>(&[9, 8, 7]), [9, 8, 7]);
}

#[test]
fn numbers_are_read_from_the_front() {
    let bytes = [0xff, 0xfe, 0, 0, 0, 1, 0, 2, 9];
    assert_eq!(u16::parse_num(&bytes).unwrap(), (0xfffe, &bytes[2..]));
    assert_eq!(i16::parse_num(&bytes).unwrap(), (-2, &bytes[2..]));
    assert_eq!(u32::parse_num(&bytes).unwrap(), (0xfffe_0000, &bytes[4..]));
    assert_eq!(i32::parse_num(&bytes).unwrap(), (-0x2_0000, &bytes[4..]));
    assert_eq!(u64::parse_num(&bytes).unwrap(), (0xfffe_0000_0001_0002, &bytes[8..]));
    assert_eq!(i64::parse_num(&bytes).unwrap(), (-0x0001_ffff_fffe_fffe, &bytes[8..]));
    assert_eq!(i16::parse_num(&[0x7f, 0xff]).unwrap().0, i16::MAX);
    assert_eq!(i16::parse_num(&[0x80, 0]).unwrap().0, i16::MIN);
    let wide: Vec<u8> = (1..=16).collect();
    assert_eq!(
        u128::parse_num(&wide).unwrap().0,
        0x0102_0304_0506_0708_090a_0b0c_0d0e_0f10
    );
}

#[test]
fn short_numbers_are_refused() {
    assert_eq!(u16::parse_num(&[1]).unwrap_err().expected, 2);
    assert_eq!(u32::parse_num(&[1, 2, 3]).unwrap_err().expected, 4);
    assert_eq!(u64::parse_num(&[]).unwrap_err().expected, 8);
    assert_eq!(u128::parse_num(&[0; 15]).unwrap_err().expected, 16);
    assert_eq!(i16::parse_num(&[]).unwrap_err().expected, 2);
    assert_eq!(i32::parse_num(&[0; 3]).unwrap_err().expected, 4);
    assert_eq!(i64::parse_num(&[0; 7]).unwrap_err().expected, 8);
}

#[test]
fn number_write_then_read() {
    let digits = be_digits(0xdead_beef, 4);
    assert_eq!(u32::parse_num(&digits).unwrap().0, 0xdead_beef);
    assert_eq!(be_digits(u32::parse_num(&[4, 3, 2, 1]).unwrap().0 as u128, 4), vec![4, 3, 2, 1]);
}
