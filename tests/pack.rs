use bmp2arr::error::ConvertError;
use bmp2arr::pack::pack_samples;

#[test]
fn depth_eight_keeps_samples() {
    let samples = vec![0x12u8, 0xAB, 0x00, 0xFF, 0x80];
    assert_eq!(pack_samples(&samples, 8), Ok(samples.clone()));
}

#[test]
fn alternating_bits_pack_into_one_byte() {
    let samples = vec![0xFFu8, 0x00, 0xFF, 0x00, 0xFF, 0x00, 0xFF, 0x00];
    assert_eq!(pack_samples(&samples, 1), Ok(vec![0xAA]));
}

#[test]
fn packed_length_is_rounded_up() {
    assert_eq!(pack_samples(&vec![0xFFu8; 5], 3).unwrap().len(), 2);
    assert_eq!(pack_samples(&vec![0x10u8; 3], 7).unwrap().len(), 3);
    assert_eq!(pack_samples(&vec![0x10u8; 16], 2).unwrap().len(), 4);
    assert_eq!(pack_samples(&Vec::new(), 5).unwrap().len(), 0);
}

#[test]
fn depth_four_packs_two_per_byte() {
    assert_eq!(pack_samples(&vec![0xABu8, 0xCD, 0xEF], 4), Ok(vec![0xAC, 0xE0]));
}

#[test]
fn samples_cross_byte_boundaries() {
    assert_eq!(pack_samples(&vec![0xFFu8, 0xFF, 0xFF], 3), Ok(vec![0xFF, 0x80]));
    assert_eq!(pack_samples(&vec![0xF8u8, 0x08], 5), Ok(vec![0xF8, 0x40]));
    assert_eq!(pack_samples(&vec![0x7Fu8, 0x81, 0xC3], 7), Ok(vec![0x7F, 0x03, 0x08]));
}

#[test]
fn low_bits_are_dropped() {
    assert_eq!(pack_samples(&vec![0x7Fu8, 0x80, 0x3F, 0xC0], 2), Ok(vec![0x63]));
}

#[test]
fn depth_outside_range_is_refused() {
    assert_eq!(pack_samples(&vec![1u8, 2, 3], 0), Err(ConvertError::InvalidBitDepth));
    assert_eq!(pack_samples(&vec![1u8, 2, 3], 9), Err(ConvertError::InvalidBitDepth));
    assert_eq!(pack_samples(&Vec::new(), 0), Err(ConvertError::InvalidBitDepth));
}
