//! `*.new.dat[.br]`: the block data of a partition.
use vstd::prelude::*;
use crate::br::{brotli_plain, decoder};
use crate::build::{lower, to_lower};
use crate::error::Error;
use crate::text::chars_of;
use crate::words::{after_last, before_last, rfind, split_last};

verus! {

/// A path whose last part has the extension `br`, in any case.
pub open spec fn is_br_name(path: Seq<char>) -> bool {
    let name = after_last(path, '/');
    let i = rfind(name, '.', name.len() as int);
    let ext = after_last(name, '.');
    i > 0 && ext.len() == 2 && lower(ext[0]) == 'b' && lower(ext[1]) == 'r'
}

/// Whether a file holds brotli compressed data, by its path.
pub fn is_brotli(path: &str) -> (r: bool)
    ensures
        r == is_br_name(path@),
{
    let chars: Vec<char> = chars_of(path);
    let (_, name): (Vec<char>, Vec<char>) = split_last(&chars, '/');
    let (stem, ext): (Vec<char>, Vec<char>) = split_last(&name, '.');
    proof {
        lemma_before_last(name@);
    }
    stem.len() > 0 && ext.len() == 2 && to_lower(ext[0]) == 'b' && to_lower(ext[1]) == 'r'
}

proof fn lemma_before_last(s: Seq<char>)
    ensures
        before_last(s, '.').len() > 0 <==> rfind(s, '.', s.len() as int) > 0,
{
    lemma_rfind(s, s.len() as int);
}

proof fn lemma_rfind(s: Seq<char>, n: int)
    requires
        0 <= n <= s.len(),
    ensures
        -1 <= rfind(s, '.', n) <= n - 1,
    decreases n,
{
    if n > 0 {
        lemma_rfind(s, n - 1);
    }
}

/// The block data in a file: a brotli compressed one (`*.new.dat.br`) is
/// decompressed.
pub fn new_data(name: &str, bytes: Vec<u8>) -> (r: Result<Vec<u8>, Error>)
    ensures
        if is_br_name(name@) {
            match r {
                Ok(b) => brotli_plain(bytes@) == Some(b@),
                Err(e) => e == Error::CorruptBrotli && brotli_plain(bytes@) is None,
            }
        } else {
            r == Ok::<Vec<u8>, Error>(bytes)
        },
{
    if is_brotli(name) {
        decoder(&bytes)
    } else {
        Ok(bytes)
    }
}

} // verus!
