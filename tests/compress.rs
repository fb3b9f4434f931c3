use bmp2arr::compress_image;
use bmp2arr::error::ConvertError;
use bmp2arr::pack::pack_samples;
use bmp2arr::raster::{samples_of, Rgb};

#[test]
fn compress_encodes_around_the_mode() {
    let buf = vec![0u8, 0, 0, 0, 0, 0, 5, 0];
    assert_eq!(compress_image(&buf), Ok(vec![0x18, 0xE7, 0, 6, 0, 5]));
}

#[test]
fn compress_short_runs_of_the_mode() {
    let buf = vec![4u8, 4, 1, 4, 2];
    assert_eq!(compress_image(&buf), Ok(vec![4, 4, 1, 4, 2]));
}

#[test]
fn compress_empty_is_refused() {
    assert_eq!(compress_image(&Vec::new()), Err(ConvertError::EmptyInput));
}

#[test]
fn pixels_become_channel_samples() {
    let pixels = vec![Rgb { r: 1, g: 2, b: 3 }, Rgb { r: 4, g: 5, b: 6 }];
    assert_eq!(samples_of(&pixels), vec![1, 2, 3, 4, 5, 6]);
    assert_eq!(samples_of(&Vec::new()), Vec::<u8>::new());
}

#[test]
fn whole_pipeline_on_a_small_image() {
    let white = Rgb { r: 0xFF, g: 0xFF, b: 0xFF };
    let black = Rgb { r: 0, g: 0, b: 0 };
    let pixels = vec![white, white, white, white, black, white, white, white];
    let packed = pack_samples(&samples_of(&pixels), 1).unwrap();
    assert_eq!(packed, vec![0xFF, 0xF1, 0xFF]);
    assert_eq!(compress_image(&packed), Ok(vec![0xFF, 0xF1]));
}
