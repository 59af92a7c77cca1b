use asbs::binary::{Carrier, Package, Sink};
use asbs::{Conceal, Error, Reveal};

fn cover_bytes(len: usize) -> Vec<u8> {
    (0..len).map(|i| (i * 37 + 11) as u8).collect()
}

#[test]
fn it_conceals_and_reveals_with_known_length() {
    let pattern = |i: usize| Some(((1u8 << (i % 3)) - 1) << 1);

    let cover = cover_bytes(1024);
    let cover_len = cover.len();

    let payload = b"a very very secret message";
    let payload_len = payload.len();

    let mut package = Sink::new();

    assert_eq!(
        Ok(cover_len),
        Carrier::new(pattern, &mut package).conceal(payload.as_slice(), cover.as_slice()),
    );

    let mut revealed_payload = Sink::new();

    Package::with_len(payload_len, pattern, package.as_slice())
        .reveal_into(&mut revealed_payload)
        .unwrap();

    assert_eq!(*payload, *revealed_payload.as_slice());
}

#[test]
fn it_conceals_and_reveals_with_embedded_length() {
    let pattern = |i: usize| Some(1u8 << (i % 3));

    let cover = cover_bytes(1024);
    let cover_len = cover.len();

    let payload = b"a very very secret message";

    let mut package = Sink::new();

    assert_eq!(
        Ok(cover_len),
        Carrier::with_embedded_len(payload.len(), pattern, &mut package)
            .conceal(payload.as_slice(), cover.as_slice()),
    );

    let mut revealed_payload = Sink::new();

    Package::with_embedded_len(pattern, package.as_slice())
        .reveal_into(&mut revealed_payload)
        .unwrap();

    assert_eq!(*payload, *revealed_payload.as_slice());
}

#[test]
fn it_handles_zero_length_payload() {
    let pattern = |_: usize| Some(1u8);

    let cover = vec![0xa4u8; 512];

    let mut package = Sink::new();

    Carrier::with_embedded_len(0, pattern, &mut package)
        .conceal([].as_slice(), cover.as_slice())
        .unwrap();

    let mut revealed_payload = Sink::new();

    Package::with_embedded_len(pattern, package.as_slice())
        .reveal_into(&mut revealed_payload)
        .unwrap();

    assert!(revealed_payload.as_slice().is_empty());
}

#[test]
fn it_handles_partial_conceal() {
    let pattern = |_: usize| Some(1u8);

    let mut package = Sink::new();

    assert_eq!(
        Err(Error::NoSpace),
        Carrier::new(pattern, &mut package)
            .conceal(b"this message won't be written".as_slice(), [].as_slice())
    );
}

#[test]
fn it_handles_partial_reveal() {
    let pattern = |_: usize| Some(1u8);

    let cover = cover_bytes(1024);

    let mut package = Sink::new();

    Carrier::new(pattern, &mut package)
        .conceal(b"this message won't fit".as_slice(), cover.as_slice())
        .unwrap();

    assert_eq!(
        Err(Error::NoSpace),
        Package::with_embedded_len(pattern, package.as_slice())
            .reveal_into(&mut Sink::with_limit(0))
    );
}
