use asbs::binary::{Package, Sink};
use asbs::{Error, Reveal};

fn reveal_all(package: Package<'_, impl FnMut(usize) -> Option<u8>>) -> (Result<usize, Error>, Vec<u8>) {
    let mut message = Sink::new();
    let result = package.reveal_into(&mut message);
    (result, message.into_bytes())
}

#[test]
fn selected_bits_make_up_the_message_in_ascending_order() {
    let (result, message) =
        reveal_all(Package::with_len(1, |_| Some(0x0f), [0xf5, 0x0a, 0xaa].as_slice()));
    assert_eq!(Ok(1), result);
    assert_eq!(vec![0xa5], message);
}

#[test]
fn a_sparse_mask_gathers_a_byte_from_several_package_bytes() {
    let (result, message) = reveal_all(Package::with_len(
        1,
        |_| Some(0b1000_0001),
        [0x01, 0x80, 0x80, 0x01].as_slice(),
    ));
    assert_eq!(Ok(1), result);
    assert_eq!(vec![0x69], message);
}

#[test]
fn bits_outside_the_mask_do_not_count() {
    let (result, message) = reveal_all(Package::with_len(
        1,
        |_| Some(0b1000_0001),
        [0x7f, 0xfe, 0xfe, 0x7f].as_slice(),
    ));
    assert_eq!(Ok(1), result);
    assert_eq!(vec![0x69], message);
}

#[test]
fn a_package_without_a_length_reveals_all_it_carries() {
    let (result, message) = reveal_all(Package::new(|_| Some(0xff), [1, 2, 3].as_slice()));
    assert_eq!(Ok(3), result);
    assert_eq!(vec![1, 2, 3], message);
}

#[test]
fn bits_short_of_a_byte_are_completed_with_clear_bits() {
    let (result, message) =
        reveal_all(Package::new(|_| Some(0x0f), [0xf5, 0x0a, 0xaa].as_slice()));
    assert_eq!(Ok(2), result);
    assert_eq!(vec![0xa5, 0x0a], message);
}

#[test]
fn a_known_length_beyond_the_package_reveals_what_there_is() {
    let (result, message) =
        reveal_all(Package::with_len(5, |_| Some(0x0f), [0xf5, 0x0a, 0xaa].as_slice()));
    assert_eq!(Ok(2), result);
    assert_eq!(vec![0xa5, 0x0a], message);
}

#[test]
fn a_known_length_of_zero_reveals_nothing() {
    let pattern = |_: usize| -> Option<u8> { panic!("the pattern must not be asked") };
    let (result, message) = reveal_all(Package::with_len(0, pattern, [1, 2, 3].as_slice()));
    assert_eq!(Ok(0), result);
    assert!(message.is_empty());
}

#[test]
fn the_package_is_not_read_behind_the_message() {
    let pattern = |i: usize| {
        assert!(i < 2);
        Some(0xff)
    };
    let (result, message) = reveal_all(Package::with_len(2, pattern, [4, 5, 6, 7].as_slice()));
    assert_eq!(Ok(2), result);
    assert_eq!(vec![4, 5], message);
}

#[test]
fn an_empty_package_reveals_nothing() {
    let (result, message) = reveal_all(Package::new(|_| Some(0xff), [].as_slice()));
    assert_eq!(Ok(0), result);
    assert!(message.is_empty());
}

#[test]
fn an_embedded_length_is_read_in_big_endian_order() {
    let (result, message) = reveal_all(Package::with_embedded_len(
        |_| Some(0xff),
        [0, 0, 0, 0, 0, 0, 0, 2, b'h', b'i', 7, 7].as_slice(),
    ));
    assert_eq!(Ok(2), result);
    assert_eq!(b"hi".to_vec(), message);
}

#[test]
fn an_embedded_length_counts_every_one_of_its_bytes() {
    let mut bytes = vec![0, 0, 0, 0, 0, 0, 1, 2];
    bytes.extend(std::iter::repeat(0x5a).take(300));
    let (result, message) =
        reveal_all(Package::with_embedded_len(|_| Some(0xff), bytes.as_slice()));
    assert_eq!(Ok(258), result);
    assert_eq!(vec![0x5a; 258], message);
}

#[test]
fn an_embedded_length_beyond_the_package_reveals_what_there_is() {
    let (result, message) = reveal_all(Package::with_embedded_len(
        |_| Some(0xff),
        [0, 0, 0, 0, 0, 0, 0, 9, b'h', b'i'].as_slice(),
    ));
    assert_eq!(Ok(2), result);
    assert_eq!(b"hi".to_vec(), message);
}

#[test]
fn an_embedded_length_of_zero_reveals_nothing() {
    let pattern = |i: usize| {
        assert!(i < 8);
        Some(0xff)
    };
    let (result, message) = reveal_all(Package::with_embedded_len(
        pattern,
        [0, 0, 0, 0, 0, 0, 0, 0, b'h', b'i'].as_slice(),
    ));
    assert_eq!(Ok(0), result);
    assert!(message.is_empty());
}

#[test]
fn a_package_too_short_for_its_length_reveals_nothing() {
    let (result, message) =
        reveal_all(Package::with_embedded_len(|_| Some(0xff), [1, 2, 3].as_slice()));
    assert_eq!(Ok(0), result);
    assert!(message.is_empty());
}

#[test]
fn the_end_of_the_pattern_ends_the_message() {
    let pattern = |i: usize| if i < 1 { Some(0xff) } else { None };
    let (result, message) = reveal_all(Package::new(pattern, [0x41, 0x42, 0x43].as_slice()));
    assert_eq!(Ok(1), result);
    assert_eq!(vec![0x41], message);
}

#[test]
fn bytes_behind_the_end_of_the_pattern_do_not_count() {
    let pattern = |i: usize| if i < 2 { Some(0x0f) } else { None };
    let (_, first) = reveal_all(Package::new(pattern, [0x12, 0x34, 0x56, 0x78].as_slice()));
    let (_, second) = reveal_all(Package::new(pattern, [0x12, 0x34, 0xff, 0x00].as_slice()));
    assert_eq!(vec![0x42], first);
    assert_eq!(first, second);
}

#[test]
fn a_sink_that_refuses_a_message_byte_is_an_error() {
    let mut message = Sink::with_limit(1);
    let result =
        Package::new(|_| Some(0xff), [1, 2, 3].as_slice()).reveal_into(&mut message);
    assert_eq!(Err(Error::NoSpace), result);
    assert_eq!([1], *message.as_slice());
}

#[test]
fn a_sink_that_refuses_the_last_bits_is_an_error() {
    let mut message = Sink::with_limit(1);
    let result =
        Package::new(|_| Some(0x0f), [0xf5, 0x0a, 0xaa].as_slice()).reveal_into(&mut message);
    assert_eq!(Err(Error::NoSpace), result);
    assert_eq!([0xa5], *message.as_slice());
}

#[test]
fn a_sink_with_just_enough_room_takes_the_message() {
    let mut message = Sink::with_limit(2);
    let result =
        Package::with_len(2, |_| Some(0xff), [1, 2, 3].as_slice()).reveal_into(&mut message);
    assert_eq!(Ok(2), result);
    assert_eq!([1, 2], *message.as_slice());
}

#[test]
fn the_bytes_of_the_length_need_no_room() {
    let mut message = Sink::with_limit(0);
    let result = Package::with_embedded_len(|_| Some(0xff), [0, 0, 0, 0, 0, 0, 0, 0, 1].as_slice())
        .reveal_into(&mut message);
    assert_eq!(Ok(0), result);
}

#[test]
fn a_message_is_written_behind_what_the_sink_holds() {
    let mut message = Sink::new();
    assert!(message.put(0x77));
    let result =
        Package::with_len(1, |_| Some(0xff), [1, 2, 3].as_slice()).reveal_into(&mut message);
    assert_eq!(Ok(1), result);
    assert_eq!([0x77, 1], *message.as_slice());
}
