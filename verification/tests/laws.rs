use asbs::binary::{Carrier, Package, Sink};
use asbs::{Conceal, Error, Reveal};

fn cover_of(len: usize) -> Vec<u8> {
    (0..len).map(|i| (i * 151 + 43) as u8).collect()
}

fn payload_of(len: usize) -> Vec<u8> {
    (0..len).map(|i| (i * 29 + 7) as u8).collect()
}

fn cycling(i: usize) -> Option<u8> {
    Some(((1u8 << (i % 3)) - 1) << 1)
}

fn scattered(i: usize) -> Option<u8> {
    Some((i as u8).wrapping_mul(0x9d) ^ 0x5a)
}

#[test]
fn a_payload_comes_back_under_its_known_length() {
    for len in 0..40 {
        let payload = payload_of(len);
        let cover = cover_of(512);

        let mut package = Sink::new();
        assert_eq!(
            Ok(cover.len()),
            Carrier::new(scattered, &mut package).conceal(&payload, &cover)
        );

        let mut message = Sink::new();
        assert_eq!(
            Ok(len),
            Package::with_len(len, scattered, package.as_slice()).reveal_into(&mut message)
        );
        assert_eq!(payload, message.into_bytes());
    }
}

#[test]
fn a_payload_comes_back_under_its_embedded_length() {
    for len in 1..40 {
        let payload = payload_of(len);
        let cover = cover_of(512);

        let mut package = Sink::new();
        assert_eq!(
            Ok(cover.len()),
            Carrier::with_embedded_len(len, scattered, &mut package).conceal(&payload, &cover)
        );

        let mut message = Sink::new();
        assert_eq!(
            Ok(len),
            Package::with_embedded_len(scattered, package.as_slice()).reveal_into(&mut message)
        );
        assert_eq!(payload, message.into_bytes());
    }
}

#[test]
fn a_payload_comes_back_when_the_cover_has_just_enough_room() {
    let payload = payload_of(5);
    let cover = cover_of(10);
    let pattern = |_: usize| Some(0x0f);

    let mut package = Sink::new();
    assert_eq!(
        Ok(10),
        Carrier::new(pattern, &mut package).conceal(&payload, &cover)
    );

    let mut message = Sink::new();
    assert_eq!(
        Ok(5),
        Package::with_len(5, pattern, package.as_slice()).reveal_into(&mut message)
    );
    assert_eq!(payload, message.into_bytes());
}

#[test]
fn a_payload_comes_back_under_a_pattern_that_ends() {
    let payload = payload_of(3);
    let cover = cover_of(64);
    let pattern = |i: usize| if i < 24 { Some(0b0100_0000) } else { None };

    let mut package = Sink::new();
    assert_eq!(
        Ok(64),
        Carrier::new(pattern, &mut package).conceal(&payload, &cover)
    );

    let mut message = Sink::new();
    assert_eq!(
        Ok(3),
        Package::new(pattern, package.as_slice()).reveal_into(&mut message)
    );
    assert_eq!(payload, message.into_bytes());
}

#[test]
fn a_payload_comes_back_under_a_pattern_that_counts_its_calls() {
    let counting = || {
        let mut calls = 0usize;
        move |_: usize| {
            calls += 1;
            Some(if calls % 2 == 0 { 0x03 } else { 0x30 })
        }
    };
    let payload = payload_of(9);
    let cover = cover_of(100);

    let mut package = Sink::new();
    assert_eq!(
        Ok(100),
        Carrier::new(counting(), &mut package).conceal(&payload, &cover)
    );

    let mut message = Sink::new();
    assert_eq!(
        Ok(9),
        Package::with_len(9, counting(), package.as_slice()).reveal_into(&mut message)
    );
    assert_eq!(payload, message.into_bytes());
}

#[test]
fn a_package_is_as_long_as_its_cover() {
    for len in [0usize, 1, 2, 7, 8, 9, 100] {
        let cover = cover_of(len);
        let payload = payload_of(len / 16);

        let mut package = Sink::new();
        assert_eq!(
            Ok(len),
            Carrier::new(cycling, &mut package).conceal(&payload, &cover)
        );
        assert_eq!(len, package.len());
    }
}

#[test]
fn bits_outside_the_masks_are_the_covers() {
    let cover = cover_of(300);
    let payload = payload_of(20);

    let mut package = Sink::new();
    Carrier::with_embedded_len(20, scattered, &mut package)
        .conceal(&payload, &cover)
        .unwrap();

    for (i, (byte, covering)) in package.as_slice().iter().zip(&cover).enumerate() {
        let mask = scattered(i).unwrap();
        assert_eq!(covering & !mask, byte & !mask);
    }
}

#[test]
fn a_zero_length_payload_leaves_the_cover_and_reveals_nothing() {
    let cover = cover_of(200);

    let mut known = Sink::new();
    assert_eq!(
        Ok(200),
        Carrier::with_len(0, cycling, &mut known).conceal(&[], &cover)
    );
    assert_eq!(cover, known.as_slice());

    let mut embedded = Sink::new();
    assert_eq!(
        Ok(200),
        Carrier::with_embedded_len(0, cycling, &mut embedded).conceal(&[], &cover)
    );
    assert_eq!(cover, embedded.as_slice());

    let mut message = Sink::new();
    assert_eq!(
        Ok(0),
        Package::with_len(0, cycling, known.as_slice()).reveal_into(&mut message)
    );
    assert_eq!(0, message.len());
}

#[test]
fn an_empty_cover_has_no_room_for_a_payload() {
    for len in 1..12 {
        let payload = payload_of(len);

        let mut package = Sink::new();
        assert_eq!(
            Err(Error::NoSpace),
            Carrier::new(cycling, &mut package).conceal(&payload, &[])
        );

        let mut package = Sink::new();
        assert_eq!(
            Err(Error::NoSpace),
            Carrier::with_embedded_len(len, cycling, &mut package).conceal(&payload, &[])
        );

        let mut package = Sink::new();
        assert_eq!(
            Err(Error::NoSpace),
            Carrier::with_len(len, cycling, &mut package).conceal(&payload, &[])
        );
    }
}

#[test]
fn a_sink_too_small_for_the_message_is_an_error() {
    let payload = payload_of(10);
    let cover = cover_of(128);

    let mut package = Sink::new();
    Carrier::new(scattered, &mut package)
        .conceal(&payload, &cover)
        .unwrap();

    for room in 0..10 {
        let mut message = Sink::with_limit(room);
        assert_eq!(
            Err(Error::NoSpace),
            Package::with_len(10, scattered, package.as_slice()).reveal_into(&mut message)
        );
        assert_eq!(payload[..room], *message.as_slice());
    }
}

#[test]
fn bytes_from_the_end_of_the_pattern_on_are_copied() {
    let cover = cover_of(50);
    let payload = payload_of(50);

    for stop in 0..10 {
        let pattern = move |i: usize| if i < stop { Some(0xff) } else { None };

        let mut package = Sink::new();
        assert_eq!(
            Ok(50),
            Carrier::new(pattern, &mut package).conceal(&payload, &cover)
        );
        assert_eq!(payload[..stop], package.as_slice()[..stop]);
        assert_eq!(cover[stop..], package.as_slice()[stop..]);
    }
}

#[test]
fn bytes_from_the_end_of_the_pattern_on_are_not_revealed() {
    let bytes = cover_of(50);

    for stop in 0..10 {
        let pattern = move |i: usize| if i < stop { Some(0xff) } else { None };

        let mut message = Sink::new();
        assert_eq!(
            Ok(stop),
            Package::new(pattern, bytes.as_slice()).reveal_into(&mut message)
        );
        assert_eq!(bytes[..stop], *message.as_slice());
    }
}

#[test]
fn an_empty_payload_behind_its_length_leaves_no_length_in_the_cover() {
    let pattern = |_: usize| Some(1u8);
    let cover = vec![0xffu8; 72];

    let mut package = Sink::new();
    assert_eq!(
        Ok(72),
        Carrier::with_embedded_len(0, pattern, &mut package).conceal(&[], &cover)
    );
    assert_eq!(cover, package.as_slice());

    let mut message = Sink::new();
    assert_eq!(
        Ok(1),
        Package::with_embedded_len(pattern, package.as_slice()).reveal_into(&mut message)
    );
    assert_eq!([0xff], *message.as_slice());
}
