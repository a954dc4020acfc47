//! Saving and recalling image specifications: the verified part.
//!
//! Serialization to the on-disk format and the file traffic itself live
//! with the caller; what is owned here is the record that round-trips
//! through a file — everything needed to recreate an image — and the
//! loop that fills a buffer from a reader.

use vstd::prelude::*;

use crate::img::ImageParams;
use crate::iter::IterParams;
use crate::rgb::ColorMapSpec;

verus! {

/// A container for all the information required to recreate an image:
/// the iteration rule, the view, and the color specification.
#[derive(Debug, Clone)]
pub struct ImageParameters {
    pub iterator: IterParams,
    pub dimensions: ImageParams,
    pub color_spec: ColorMapSpec,
}

/// Declares std::io::Error, the error a reader hands back, so it can
/// pass through signatures here; nothing about its inside is assumed.
#[verifier::external_type_specification]
#[verifier::external_body]
pub struct ExIoError(std::io::Error);

/// Relies on std::io::Read::read: a successful read reports how many
/// bytes it placed at the front of the handed slice, never more than
/// the slice holds; on an error, no bytes were read.
#[verifier::external_body]
fn read_some<R: std::io::Read>(r: &mut R, buff: &mut Vec<u8>, from: usize) -> (res: Result<
    usize,
    std::io::Error,
>)
    requires
        from <= old(buff)@.len(),
    ensures
        final(buff)@.len() == old(buff)@.len(),
        match res {
            Ok(n) => n <= old(buff)@.len() - from,
            Err(_) => final(buff)@ == old(buff)@,
        },
{
    r.read(&mut buff[from..])
}

/// Read from `r` into `buff` until the reader reports no more bytes,
/// and return how many bytes were placed at the front of the buffer.
/// A reader that keeps delivering fills the buffer completely and then
/// stops at its first empty read.
pub fn try_to_fill<R: std::io::Read>(r: &mut R, buff: &mut Vec<u8>) -> (res: Result<
    usize,
    std::io::Error,
>)
    ensures
        final(buff)@.len() == old(buff)@.len(),
        match res {
            Ok(n) => n <= final(buff)@.len(),
            Err(_) => true,
        },
{
    let mut total_read: usize = 0;
    let blen = buff.len();
    loop
        invariant
            blen == buff@.len(),
            total_read <= buff@.len(),
            buff@.len() == old(buff)@.len(),
        decreases buff@.len() - total_read,
    {
        match read_some(r, buff, total_read) {
            Err(e) => {
                return Err(e);
            },
            Ok(n) => {
                if n == 0 {
                    return Ok(total_read);
                }
                total_read = total_read + n;
            },
        }
    }
}

} // verus!
