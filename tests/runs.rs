use bmp2arr::error::ConvertError;
use bmp2arr::runs::encode_runs;

#[test]
fn six_repeats_become_an_escape_record() {
    let m = 0x42u8;
    let buf = vec![m, m, m, m, m, m, 9];
    assert_eq!(encode_runs(&buf, m), Ok(vec![0x18, 0xE7, m, 0x06, 0x00, 0x09]));
}

#[test]
fn four_repeats_stay_literal() {
    let m = 0x42u8;
    let buf = vec![m, m, m, m, 9];
    assert_eq!(encode_runs(&buf, m), Ok(vec![m, m, m, m, 9]));
}

#[test]
fn five_repeats_are_escaped() {
    let buf = vec![0u8, 0, 0, 0, 0, 3, 0, 4];
    assert_eq!(encode_runs(&buf, 0), Ok(vec![0x18, 0xE7, 0, 5, 0, 3, 0, 4]));
}

#[test]
fn trailing_run_is_left_out() {
    let m = 7u8;
    assert_eq!(encode_runs(&vec![1u8, m, m, m, m, m, m], m), Ok(vec![1]));
    assert_eq!(encode_runs(&vec![1u8, m, 2, m], m), Ok(vec![1, m, 2]));
    assert_eq!(encode_runs(&vec![m; 10], m), Ok(vec![]));
    assert_eq!(encode_runs(&Vec::new(), m), Ok(vec![]));
}

#[test]
fn run_length_is_little_endian() {
    let mut buf = vec![0xEEu8; 300];
    buf.push(9);
    assert_eq!(encode_runs(&buf, 0xEE), Ok(vec![0x18, 0xE7, 0xEE, 0x2C, 0x01, 9]));
}

#[test]
fn longest_countable_run() {
    let mut buf = vec![1u8; 65535];
    buf.push(2);
    assert_eq!(encode_runs(&buf, 1), Ok(vec![0x18, 0xE7, 1, 0xFF, 0xFF, 2]));
}

#[test]
fn run_past_sixteen_bits_is_refused() {
    let mut buf = vec![3u8];
    buf.extend(vec![1u8; 65536]);
    buf.push(2);
    assert_eq!(encode_runs(&buf, 1), Err(ConvertError::RunTooLong));
}

#[test]
fn other_bytes_pass_through() {
    assert_eq!(encode_runs(&vec![0x18u8, 0xE7, 5, 6], 0), Ok(vec![0x18, 0xE7, 5, 6]));
}
