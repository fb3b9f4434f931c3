use bmp2arr::error::ConvertError;
use bmp2arr::mode::find_mode;

#[test]
fn constant_buffer_mode_and_count() {
    assert_eq!(find_mode(&vec![5u8; 3]), Ok((5, 3)));
    assert_eq!(find_mode(&vec![5u8; 255]), Ok((5, 255)));
    assert_eq!(find_mode(&vec![5u8; 300]), Ok((5, 255)));
}

#[test]
fn first_value_to_reach_the_top_count_wins() {
    assert_eq!(find_mode(&vec![1u8, 2, 2, 1]), Ok((2, 2)));
    assert_eq!(find_mode(&vec![3u8, 1, 1, 3]), Ok((1, 2)));
    assert_eq!(find_mode(&vec![9u8, 4]), Ok((9, 1)));
}

#[test]
fn saturated_counts_keep_the_first_leader() {
    let mut buf = vec![1u8; 300];
    buf.extend(vec![2u8; 400]);
    assert_eq!(find_mode(&buf), Ok((1, 255)));
}

#[test]
fn empty_buffer_has_no_mode() {
    assert_eq!(find_mode(&Vec::new()), Err(ConvertError::EmptyInput));
}
