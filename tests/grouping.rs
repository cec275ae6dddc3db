use dec2bin::grouping::bits_to_bytes;

#[test]
fn pads_short_sequence_into_one_group() {
    assert_eq!(bits_to_bytes(&[1, 0, 0, 0]), vec![vec![0, 0, 0, 0, 1, 0, 0, 0]]);
}

#[test]
fn whole_groups_get_no_padding() {
    let bits = [1, 0, 1, 0, 1, 0, 1, 1, 0, 0, 0, 0, 1, 1, 1, 1];
    assert_eq!(
        bits_to_bytes(&bits),
        vec![vec![1, 0, 1, 0, 1, 0, 1, 1], vec![0, 0, 0, 0, 1, 1, 1, 1]]
    );
}

#[test]
fn padding_goes_only_in_the_first_group() {
    // 256 = 1 followed by eight zeros
    let bits = [1, 0, 0, 0, 0, 0, 0, 0, 0];
    assert_eq!(
        bits_to_bytes(&bits),
        vec![vec![0, 0, 0, 0, 0, 0, 0, 1], vec![0, 0, 0, 0, 0, 0, 0, 0]]
    );
}

#[test]
fn no_bits_give_no_groups() {
    assert_eq!(bits_to_bytes(&[]), Vec::<Vec<u8>>::new());
}
