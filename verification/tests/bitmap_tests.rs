use morsel_sink::bitmap::bytes_for;
use morsel_sink::bitmap::count_zeros;
use morsel_sink::bitmap::get_bit_unchecked;
use morsel_sink::bitmap::is_set;
use morsel_sink::bitmap::set_bit_in_byte;
use morsel_sink::bitmap::set_bit_unchecked;

#[test]
fn is_set_reads_each_bit() {
    let byte = 0b0100_1011u8;
    let expected = [true, true, false, true, false, false, true, false];
    for i in 0..8 {
        assert_eq!(is_set(byte, i), expected[i]);
    }
}

#[test]
fn set_bit_in_byte_sets_and_clears() {
    assert_eq!(set_bit_in_byte(0b0000_0000, 3, true), 0b0000_1000);
    assert_eq!(set_bit_in_byte(0b1111_1111, 3, false), 0b1111_0111);
    assert_eq!(set_bit_in_byte(0b0000_1000, 3, true), 0b0000_1000);
    assert_eq!(set_bit_in_byte(0b0100_0000, 0, true), 0b0100_0001);
}

#[test]
fn bytes_for_rounds_up() {
    assert_eq!(bytes_for(0), 0);
    assert_eq!(bytes_for(1), 1);
    assert_eq!(bytes_for(8), 1);
    assert_eq!(bytes_for(9), 2);
    assert_eq!(bytes_for(64), 8);
    assert_eq!(bytes_for(65), 9);
}

#[test]
fn bytes_for_saturates_near_the_top() {
    assert_eq!(bytes_for(usize::MAX), usize::MAX / 8);
    assert_eq!(bytes_for(usize::MAX - 6), usize::MAX / 8);
}

#[test]
fn get_and_set_bit_across_bytes() {
    let mut buf = vec![0u8; 3];
    set_bit_unchecked(&mut buf, 0, true);
    set_bit_unchecked(&mut buf, 9, true);
    set_bit_unchecked(&mut buf, 23, true);
    assert_eq!(buf, vec![0b0000_0001, 0b0000_0010, 0b1000_0000]);
    assert!(get_bit_unchecked(&buf, 0));
    assert!(!get_bit_unchecked(&buf, 1));
    assert!(get_bit_unchecked(&buf, 9));
    assert!(get_bit_unchecked(&buf, 23));
    set_bit_unchecked(&mut buf, 9, false);
    assert!(!get_bit_unchecked(&buf, 9));
    assert_eq!(buf[0], 0b0000_0001);
}

#[test]
fn count_zeros_counts_within_the_range() {
    // least significant bit first: byte 0 holds bits 0..8
    let buf = [0b1111_0000u8, 0b0000_1111u8];
    assert_eq!(count_zeros(&buf, 0, 16), 8);
    assert_eq!(count_zeros(&buf, 0, 4), 4);
    assert_eq!(count_zeros(&buf, 4, 8), 0);
    assert_eq!(count_zeros(&buf, 4, 4), 0);
    assert_eq!(count_zeros(&buf, 0, 0), 0);
    assert_eq!(count_zeros(&buf, 10, 6), 4);
    assert_eq!(count_zeros(&buf, 3, 2), 1);
}
