use asbs::binary::{Carrier, Sink};
use asbs::{Conceal, Error};

fn conceal_all(
    pattern: impl FnMut(usize) -> Option<u8>,
    payload: &[u8],
    cover: &[u8],
) -> (Result<usize, Error>, Vec<u8>) {
    let mut package = Sink::new();
    let result = Carrier::new(pattern, &mut package).conceal(payload, cover);
    (result, package.into_bytes())
}

#[test]
fn payload_bits_fill_the_selected_positions_in_ascending_order() {
    let (result, package) = conceal_all(|_| Some(0x0f), &[0xa5], &[0xff, 0x00, 0xaa]);
    assert_eq!(Ok(3), result);
    assert_eq!(vec![0xf5, 0x0a, 0xaa], package);
}

#[test]
fn a_sparse_mask_spreads_a_byte_over_several_cover_bytes() {
    let (result, package) = conceal_all(|_| Some(0b1000_0001), &[0x69], &[0x00; 4]);
    assert_eq!(Ok(4), result);
    assert_eq!(vec![0x01, 0x80, 0x80, 0x01], package);
}

#[test]
fn selected_bits_of_the_cover_are_replaced() {
    let (result, package) = conceal_all(|_| Some(0xff), &[0x00, 0x3c], &[0xff, 0xff, 0xff]);
    assert_eq!(Ok(3), result);
    assert_eq!(vec![0x00, 0x3c, 0xff], package);
}

#[test]
fn a_byte_with_an_empty_mask_is_copied_and_counted() {
    let pattern = |i: usize| if i % 2 == 0 { Some(0x00) } else { Some(0xff) };
    let (result, package) = conceal_all(pattern, &[0xab, 0xcd], &[1, 2, 3, 4, 5]);
    assert_eq!(Ok(5), result);
    assert_eq!(vec![1, 0xab, 3, 0xcd, 5], package);
}

#[test]
fn the_cover_behind_the_payload_is_copied() {
    let (result, package) = conceal_all(|_| Some(0xff), &[0x11], &[9, 8, 7, 6]);
    assert_eq!(Ok(4), result);
    assert_eq!(vec![0x11, 8, 7, 6], package);
}

#[test]
fn positions_left_over_in_the_last_byte_are_cleared() {
    let (result, package) = conceal_all(|_| Some(0b0011_1111), &[0xff], &[0xff, 0xff, 0xff]);
    assert_eq!(Ok(3), result);
    assert_eq!(vec![0xff, 0xc3, 0xff], package);
}

#[test]
fn an_empty_payload_leaves_the_cover_as_it_is() {
    let pattern = |_: usize| -> Option<u8> { panic!("the pattern must not be asked") };
    let (result, package) = conceal_all(pattern, &[], &[5, 6, 7]);
    assert_eq!(Ok(3), result);
    assert_eq!(vec![5, 6, 7], package);
}

#[test]
fn an_empty_payload_in_an_empty_cover_is_no_error() {
    let (result, package) = conceal_all(|_| Some(1), &[], &[]);
    assert_eq!(Ok(0), result);
    assert!(package.is_empty());
}

#[test]
fn the_pattern_is_not_asked_behind_the_payload() {
    let pattern = |i: usize| {
        assert!(i < 2);
        Some(0x0f)
    };
    let (result, package) = conceal_all(pattern, &[0x21], &[0, 0, 0, 0]);
    assert_eq!(Ok(4), result);
    assert_eq!(vec![0x01, 0x02, 0, 0], package);
}

#[test]
fn the_pattern_is_asked_once_for_each_byte_in_turn() {
    let mut asked = 0;
    let pattern = move |i: usize| {
        assert_eq!(asked, i);
        asked += 1;
        Some(0xff)
    };
    let (result, package) = conceal_all(pattern, &[1, 2, 3], &[0; 5]);
    assert_eq!(Ok(5), result);
    assert_eq!(vec![1, 2, 3, 0, 0], package);
}

#[test]
fn the_end_of_the_pattern_ends_concealment() {
    let pattern = |i: usize| if i < 2 { Some(0xff) } else { None };
    let (result, package) = conceal_all(pattern, &[1, 2], &[9, 9, 9, 9]);
    assert_eq!(Ok(4), result);
    assert_eq!(vec![1, 2, 9, 9], package);
}

#[test]
fn a_pattern_that_ends_at_once_copies_the_cover() {
    let (result, package) = conceal_all(|_| None, &[1, 2], &[9, 8, 7]);
    assert_eq!(Ok(3), result);
    assert_eq!(vec![9, 8, 7], package);
}

#[test]
fn an_unbounded_payload_is_cut_short_between_bytes_in_silence() {
    let (result, package) = conceal_all(|_| Some(0xff), &[1, 2, 3, 4], &[0, 0]);
    assert_eq!(Ok(2), result);
    assert_eq!(vec![1, 2], package);
}

#[test]
fn an_unbounded_payload_is_cut_short_in_its_last_byte_in_silence() {
    let (result, package) = conceal_all(|_| Some(0x0f), &[0x01, 0xff], &[0, 0, 0]);
    assert_eq!(Ok(3), result);
    assert_eq!(vec![0x01, 0x00, 0x0f], package);
}

#[test]
fn a_byte_cut_in_two_with_more_behind_it_is_an_error() {
    let (result, package) = conceal_all(|_| Some(0x0f), &[1, 2, 3], &[0, 0, 0]);
    assert_eq!(Err(Error::NoSpace), result);
    assert_eq!(vec![0x01, 0x00, 0x02], package);
}

#[test]
fn a_pattern_that_ends_within_a_byte_with_more_behind_it_is_an_error() {
    let pattern = |i: usize| if i < 1 { Some(0x0f) } else { None };
    let (result, package) = conceal_all(pattern, &[0xff, 0xff], &[0, 0, 0]);
    assert_eq!(Err(Error::NoSpace), result);
    assert_eq!(vec![0x0f], package);
}

#[test]
fn an_empty_cover_has_no_room_for_a_single_byte() {
    let (result, package) = conceal_all(|_| Some(0xff), &[1], &[]);
    assert_eq!(Err(Error::NoSpace), result);
    assert!(package.is_empty());
}

#[test]
fn the_length_is_concealed_before_the_payload_in_big_endian_order() {
    let mut package = Sink::new();
    let result = Carrier::with_embedded_len(2, |_| Some(0xff), &mut package)
        .conceal(b"hi".as_slice(), [0u8; 12].as_slice());
    assert_eq!(Ok(12), result);
    assert_eq!(
        [0, 0, 0, 0, 0, 0, 0, 2, b'h', b'i', 0, 0],
        *package.as_slice()
    );
}

#[test]
fn every_byte_of_the_length_has_its_place() {
    let mut package = Sink::new();
    let result = Carrier::with_embedded_len(0x0102_0304, |_| Some(0xff), &mut package)
        .conceal([].as_slice(), [0xeeu8; 9].as_slice());
    assert_eq!(Ok(9), result);
    assert_eq!([0, 0, 0, 0, 1, 2, 3, 4, 0xee], *package.as_slice());
}

#[test]
fn an_embedded_length_bounds_the_payload() {
    let mut package = Sink::new();
    let result = Carrier::with_embedded_len(1, |_| Some(0xff), &mut package)
        .conceal(b"hi".as_slice(), [0u8; 12].as_slice());
    assert_eq!(Ok(12), result);
    assert_eq!([0, 0, 0, 0, 0, 0, 0, 1, b'h', 0, 0, 0], *package.as_slice());
}

#[test]
fn an_embedded_length_of_zero_conceals_nothing() {
    let mut package = Sink::new();
    let result = Carrier::with_embedded_len(0, |_| Some(0xff), &mut package)
        .conceal(b"hi".as_slice(), [7u8; 12].as_slice());
    assert_eq!(Ok(12), result);
    assert_eq!([7u8; 12], *package.as_slice());
}

#[test]
fn a_cover_too_small_for_the_embedded_length_is_an_error() {
    let mut package = Sink::new();
    let result = Carrier::with_embedded_len(2, |_| Some(0xff), &mut package)
        .conceal(b"hi".as_slice(), [0u8; 9].as_slice());
    assert_eq!(Err(Error::NoSpace), result);
    assert_eq!([0, 0, 0, 0, 0, 0, 0, 2, b'h'], *package.as_slice());
}

#[test]
fn a_known_length_bounds_the_payload() {
    let mut package = Sink::new();
    let result = Carrier::with_len(1, |_| Some(0xff), &mut package)
        .conceal([0xaa, 0xbb].as_slice(), [0u8; 3].as_slice());
    assert_eq!(Ok(3), result);
    assert_eq!([0xaa, 0, 0], *package.as_slice());
}

#[test]
fn a_known_length_beyond_the_payload_conceals_all_of_it() {
    let mut package = Sink::new();
    let result = Carrier::with_len(5, |_| Some(0xff), &mut package)
        .conceal([0xaa, 0xbb].as_slice(), [0u8; 3].as_slice());
    assert_eq!(Ok(3), result);
    assert_eq!([0xaa, 0xbb, 0], *package.as_slice());
}

#[test]
fn a_known_length_of_zero_conceals_nothing() {
    let pattern = |_: usize| -> Option<u8> { panic!("the pattern must not be asked") };
    let mut package = Sink::new();
    let result =
        Carrier::with_len(0, pattern, &mut package).conceal([1, 2].as_slice(), [5, 6].as_slice());
    assert_eq!(Ok(2), result);
    assert_eq!([5, 6], *package.as_slice());
}

#[test]
fn a_bounded_payload_is_never_cut_short_in_silence() {
    let mut package = Sink::new();
    let result = Carrier::with_len(2, |_| Some(0xff), &mut package)
        .conceal([1, 2].as_slice(), [0u8; 1].as_slice());
    assert_eq!(Err(Error::NoSpace), result);
    assert_eq!([1], *package.as_slice());
}

#[test]
fn a_bound_of_zero_makes_an_empty_cover_enough() {
    let mut package = Sink::new();
    let result =
        Carrier::with_len(0, |_| Some(0xff), &mut package).conceal([1].as_slice(), [].as_slice());
    assert_eq!(Ok(0), result);
}

#[test]
fn a_sink_that_refuses_a_package_byte_is_an_error() {
    let mut package = Sink::with_limit(2);
    let result = Carrier::new(|_| Some(0xff), &mut package)
        .conceal([1, 2, 3].as_slice(), [0u8; 4].as_slice());
    assert_eq!(Err(Error::NoSpace), result);
    assert_eq!([1, 2], *package.as_slice());
}

#[test]
fn a_sink_that_refuses_a_copied_byte_is_an_error() {
    let mut package = Sink::with_limit(3);
    let result =
        Carrier::new(|_| Some(0xff), &mut package).conceal([1].as_slice(), [9u8; 4].as_slice());
    assert_eq!(Err(Error::NoSpace), result);
    assert_eq!([1, 9, 9], *package.as_slice());
}

#[test]
fn a_sink_with_just_enough_room_takes_the_package() {
    let mut package = Sink::with_limit(4);
    let result =
        Carrier::new(|_| Some(0xff), &mut package).conceal([1].as_slice(), [9u8; 4].as_slice());
    assert_eq!(Ok(4), result);
    assert_eq!([1, 9, 9, 9], *package.as_slice());
}

#[test]
fn a_package_is_written_behind_what_the_sink_holds() {
    let mut package = Sink::new();
    assert!(package.put(0x77));
    let result =
        Carrier::new(|_| Some(0xff), &mut package).conceal([1].as_slice(), [9u8; 2].as_slice());
    assert_eq!(Ok(2), result);
    assert_eq!([0x77, 1, 9], *package.as_slice());
}
