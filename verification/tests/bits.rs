use asbs::binary::bits::Ones;

fn positions(mask: u8) -> Vec<usize> {
    let mut ones = Ones::from(mask);
    let mut found = Vec::new();
    while let Some(pos) = ones.next() {
        found.push(pos);
    }
    found
}

#[test]
fn an_empty_mask_selects_nothing() {
    assert_eq!(Vec::<usize>::new(), positions(0));
}

#[test]
fn a_full_mask_selects_every_position() {
    assert_eq!(vec![0, 1, 2, 3, 4, 5, 6, 7], positions(0xff));
}

#[test]
fn positions_come_in_ascending_order() {
    assert_eq!(vec![0, 2, 5, 7], positions(0b1010_0101));
    assert_eq!(vec![1, 2], positions(0b0000_0110));
}

#[test]
fn the_top_bit_is_position_seven() {
    assert_eq!(vec![7], positions(0x80));
}

#[test]
fn a_walk_that_has_ended_stays_ended() {
    let mut ones = Ones::from(0b0001_0000);
    assert_eq!(Some(4), ones.next());
    assert_eq!(None, ones.next());
    assert_eq!(None, ones.next());
}
