//! Block data with brotli: `*.new.dat.br`, `*.patch.dat` and
//! `*.transfer.list`.
use vstd::prelude::*;
use crate::br::{brotli_makes, brotli_plain, brotli_takes, compress_file, params_fault, DEFAULT_LGWIN};
use crate::bytes::push_bytes;
use crate::error::Error;
use crate::text::followed_by;

verus! {

/// The files for the block data and the transfer list of an image: the block
/// data is compressed, and the patch is empty.
pub open spec fn dat_files(
    files: Seq<(String, Vec<u8>)>,
    prefix: Seq<char>,
    quality: u32,
    list: Seq<u8>,
    data: Seq<u8>,
) -> bool {
    &&& files.len() == 3
    &&& files[0].0@ == prefix + ".new.dat.br"@
    &&& brotli_makes(data, quality, DEFAULT_LGWIN, files[0].1@)
    &&& brotli_plain(files[0].1@) == Some(data)
    &&& files[1].0@ == prefix + ".patch.dat"@
    &&& files[1].1@ == Seq::<u8>::empty()
    &&& files[2].0@ == prefix + ".transfer.list"@
    &&& files[2].1@ == list
}

/// The files for the block data and the transfer list of an image, by name,
/// in the order in which they are written.
pub fn img_to_dat(prefix: &str, quality: u32, list: &[u8], data: &[u8]) -> (r: Result<
    Vec<(String, Vec<u8>)>,
    Error,
>)
    ensures
        match r {
            Ok(files) => quality <= 11 && dat_files(files@, prefix@, quality, list@, data@),
            Err(e) => match params_fault(quality, DEFAULT_LGWIN) {
                Some(f) => e == f,
                None => e == Error::BrotliFailed && !brotli_takes(data@, quality, DEFAULT_LGWIN),
            },
        },
{
    let packed: Vec<u8> = match compress_file(data, quality, DEFAULT_LGWIN) {
        Ok(b) => b,
        Err(e) => {
            return Err(e);
        },
    };
    let none: Vec<u8> = Vec::new();
    assert(none@ =~= Seq::<u8>::empty());
    let mut text: Vec<u8> = Vec::new();
    push_bytes(&mut text, list);
    assert(text@ =~= list@);
    let mut files: Vec<(String, Vec<u8>)> = Vec::new();
    files.push((followed_by(prefix, ".new.dat.br"), packed));
    files.push((followed_by(prefix, ".patch.dat"), none));
    files.push((followed_by(prefix, ".transfer.list"), text));
    Ok(files)
}

} // verus!
