//! Turns raster samples into a compact byte stream: samples are cut to a bit
//! depth and packed densely, and the packed bytes are run-length encoded
//! around their most frequent value.

use vstd::prelude::*;

pub mod error;
pub mod mode;
pub mod pack;
pub mod raster;
pub mod runs;

use crate::error::ConvertError;
use crate::mode::{find_mode, is_mode};
use crate::runs::{encode_runs, has_long_run, run_encoding};

verus! {

/// Compresses a packed buffer: finds its mode and run-length encodes the
/// buffer around it.
pub fn compress_image(image: &Vec<u8>) -> (r: Result<Vec<u8>, ConvertError>)
    ensures
        image@.len() == 0 ==> r == Err::<Vec<u8>, ConvertError>(ConvertError::EmptyInput),
        image@.len() > 0 ==> exists|m: u8, c: u8|
            #[trigger] is_mode(image@, m, c) && (r is Err <==> has_long_run(image@, m)) && (r is Err
                ==> r->Err_0 == ConvertError::RunTooLong) && (r is Ok ==> r->Ok_0@ == run_encoding(
                image@,
                m,
            )),
{
    match find_mode(image) {
        Err(e) => Err(e),
        Ok((m, _count)) => encode_runs(image, m),
    }
}

} // verus!
