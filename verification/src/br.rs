//! Brotli (`*.br`) compression, built on the `brotli` crate.
use std::io::{Read, Write};
use vstd::prelude::*;
use crate::bytes::push_bytes;
use crate::error::Error;

verus! {

/// Quality used unless another one is asked for.
pub const DEFAULT_QUALITY: u32 = 1;

/// Window size used for ROMs (`brotli -w 24`), the largest standard one.
pub const DEFAULT_LGWIN: u32 = 24;

pub const BUF_SIZE: usize = 0x10_0000;

/// What a brotli stream decompresses to; nothing where it is no stream.
pub uninterp spec fn brotli_plain(bytes: Seq<u8>) -> Option<Seq<u8>>;

/// `bytes` is a stream that the compressor makes of `data` with a quality and
/// a window size.
pub uninterp spec fn brotli_makes(data: Seq<u8>, quality: u32, lgwin: u32, bytes: Seq<u8>) -> bool;

/// The compressor makes a stream of `data` with a quality and a window size.
pub open spec fn brotli_takes(data: Seq<u8>, quality: u32, lgwin: u32) -> bool {
    exists|bytes: Seq<u8>| #[trigger] brotli_makes(data, quality, lgwin, bytes)
}

/// `brotli::CompressorWriter` over a buffer in memory: writes `data` and ends
/// the stream. Whether that works depends on the arguments alone, and
/// decompressing what comes out gives `data` back. Which bytes come out is
/// left open: it depends on the machine's floating point. Nothing comes out
/// where writing reports an error; ending the stream reports none.
#[verifier::external_body]
fn compressed(data: &[u8], quality: u32, lgwin: u32) -> (r: Option<Vec<u8>>)
    requires
        quality <= 11,
        10 <= lgwin <= 24,
    ensures
        match r {
            Some(b) => brotli_makes(data@, quality, lgwin, b@) && brotli_plain(b@) == Some(data@),
            None => !brotli_takes(data@, quality, lgwin),
        },
{
    let mut w = brotli::CompressorWriter::new(Vec::new(), BUF_SIZE, quality, lgwin);
    match w.write_all(data) {
        Ok(()) => Some(w.into_inner()),
        Err(_) => None,
    }
}

pub open spec fn plain_view(v: Option<Vec<u8>>) -> Option<Seq<u8>> {
    match v {
        Some(b) => Some(b@),
        None => None,
    }
}

/// `brotli::Decompressor` read to its end: the bytes, or nothing where it
/// reports an error.
#[verifier::external_body]
fn decompressed(input: &[u8]) -> (r: Option<Vec<u8>>)
    ensures
        plain_view(r) == brotli_plain(input@),
{
    let mut out = Vec::new();
    match brotli::Decompressor::new(input, BUF_SIZE).read_to_end(&mut out) {
        Ok(_) => Some(out),
        Err(_) => None,
    }
}

/// What is wrong with the parameters of a compressor.
pub open spec fn params_fault(quality: u32, lgwin: u32) -> Option<Error> {
    if quality > 11 {
        Some(Error::BadQuality)
    } else if !(10 <= lgwin <= 24) {
        Some(Error::BadWindow)
    } else {
        None
    }
}

/// `quality` is 0-11, `lgwin` (window size, log2) is 10-24.
pub fn check_params(quality: u32, lgwin: u32) -> (r: Result<(), Error>)
    ensures
        match r {
            Ok(_) => params_fault(quality, lgwin) is None,
            Err(e) => params_fault(quality, lgwin) == Some(e),
        },
{
    if quality > 11 {
        return Err(Error::BadQuality);
    }
    if lgwin < 10 || lgwin > 24 {
        return Err(Error::BadWindow);
    }
    Ok(())
}

/// Where compressed bytes go.
pub trait Sink: Sized {
    /// It tells which bytes it has taken, which errors it has given, and
    /// whether it is flushed.
    open spec fn tells(&self) -> bool {
        false
    }

    /// The bytes taken so far.
    open spec fn taken(&self) -> Seq<u8> {
        Seq::empty()
    }

    /// The errors given so far.
    open spec fn failures(&self) -> Seq<Error> {
        Seq::empty()
    }

    /// Nothing was taken since the last flush.
    open spec fn flushed(&self) -> bool {
        false
    }

    /// It takes everything it is given.
    open spec fn reliable(&self) -> bool {
        false
    }

    /// It takes nothing, and gives this error.
    open spec fn refuses(&self) -> Option<Error> {
        None
    }

    /// Takes some bytes from the front of `buf`, and tells how many.
    fn write(&mut self, buf: &[u8]) -> (r: Result<usize, Error>)
        ensures
            old(self).tells() ==> final(self).tells(),
            match r {
                Ok(n) => {
                    &&& n <= buf@.len()
                    &&& old(self).tells() ==> final(self).taken() == old(self).taken() + buf@.take(n as int)
                    &&& old(self).tells() ==> final(self).failures() == old(self).failures()
                },
                Err(e) => old(self).tells() ==> final(self).failures() == old(self).failures().push(e),
            },
            old(self).reliable() ==> final(self).reliable() && r == Ok::<usize, Error>(
                buf@.len() as usize,
            ),
            old(self).refuses() is Some ==> r == Err::<usize, Error>(old(self).refuses()->Some_0),
    ;

    fn flush(&mut self) -> (r: Result<(), Error>)
        ensures
            old(self).tells() ==> final(self).tells() && final(self).taken() == old(self).taken(),
            match r {
                Ok(()) => old(self).tells() ==> final(self).flushed() && final(self).failures() == old(
                    self,
                ).failures(),
                Err(e) => old(self).tells() ==> final(self).failures() == old(self).failures().push(e),
            },
            old(self).reliable() ==> final(self).reliable() && r is Ok,
            old(self).refuses() is Some ==> r == Err::<(), Error>(old(self).refuses()->Some_0),
    ;
}

impl Sink for Vec<u8> {
    open spec fn tells(&self) -> bool {
        true
    }

    open spec fn taken(&self) -> Seq<u8> {
        self@
    }

    open spec fn flushed(&self) -> bool {
        true
    }

    open spec fn reliable(&self) -> bool {
        true
    }

    fn write(&mut self, buf: &[u8]) -> Result<usize, Error> {
        push_bytes(self, buf);
        assert(buf@.take(buf@.len() as int) =~= buf@);
        Ok(buf.len())
    }

    fn flush(&mut self) -> Result<(), Error> {
        Ok(())
    }
}

/// Writes all of some bytes; the first error of the sink is reported, and one
/// of its own where the sink takes nothing.
pub fn write_all<W: Sink>(out: &mut W, bytes: &[u8]) -> (r: Result<(), Error>)
    ensures
        old(out).tells() ==> final(out).tells(),
        match r {
            Ok(()) => {
                &&& old(out).tells() ==> final(out).taken() == old(out).taken() + bytes@
                &&& old(out).tells() ==> final(out).failures() == old(out).failures()
                &&& old(out).refuses() is Some ==> bytes@.len() == 0
                &&& bytes@.len() == 0 ==> *final(out) == *old(out)
            },
            Err(e) => {
                &&& old(out).tells() ==> {
                    ||| e == Error::WriteZero && final(out).failures() == old(out).failures()
                    ||| final(out).failures() == old(out).failures().push(e)
                }
                &&& old(out).refuses() is Some ==> e == old(out).refuses()->Some_0
            },
        },
        old(out).reliable() ==> r is Ok && final(out).reliable(),
{
    let n: usize = bytes.len();
    let mut at: usize = 0;
    assert(out.taken() + bytes@.take(0) =~= out.taken());
    while at < n
        invariant
            n == bytes@.len(),
            at <= n,
            at == 0 ==> *out == *old(out),
            old(out).tells() ==> out.tells(),
            old(out).tells() ==> out.taken() == old(out).taken() + bytes@.take(at as int),
            old(out).tells() ==> out.failures() == old(out).failures(),
            old(out).reliable() ==> out.reliable(),
            old(out).refuses() is Some ==> at == 0,
        decreases n - at,
    {
        let rest: &[u8] = vstd::slice::slice_subrange(bytes, at, n);
        match out.write(rest) {
            Ok(k) => {
                if k == 0 {
                    return Err(Error::WriteZero);
                }
                assert(bytes@.take(at as int) + rest@.take(k as int) =~= bytes@.take(at + k));
                assert(old(out).taken() + bytes@.take(at as int) + rest@.take(k as int) =~= old(
                    out,
                ).taken() + bytes@.take(at + k));
                at = at + k;
            },
            Err(e) => {
                return Err(e);
            },
        }
    }
    assert(bytes@.take(n as int) =~= bytes@);
    Ok(())
}

/// Brotli compressor. Call [`Encoder::finish`] at the end: it writes the
/// stream and reports the first error of the sink.
pub struct Encoder<W: Sink> {
    pub out: W,
    /// What was written so far.
    pub plain: Vec<u8>,
    pub quality: u32,
    pub lgwin: u32,
    /// The first error that the sink has given, or that it took nothing.
    pub error: Option<Error>,
    /// The errors that the sink had given before.
    pub earlier: Ghost<Seq<Error>>,
}

/// The first of the errors that came behind the earlier ones.
pub open spec fn first_failure(earlier: Seq<Error>, all: Seq<Error>) -> Option<Error> {
    if earlier.len() < all.len() && all.take(earlier.len() as int) == earlier {
        Some(all[earlier.len() as int])
    } else {
        None
    }
}

/// A sink that has given these errors since the earlier ones makes `e` be
/// reported: it is the first of them, or there are none and the sink took
/// nothing.
pub open spec fn fails_with(earlier: Seq<Error>, all: Seq<Error>, e: Error) -> bool {
    ||| first_failure(earlier, all) == Some(e)
    ||| e == Error::WriteZero && all == earlier
}

/// A sink has taken the stream of `plain` since it was `before`, and is
/// flushed.
pub open spec fn has_stream<W: Sink>(
    before: W,
    after: W,
    plain: Seq<u8>,
    quality: u32,
    lgwin: u32,
) -> bool {
    &&& after.tells()
    &&& after.flushed()
    &&& after.failures() == before.failures()
    &&& exists|c: Seq<u8>|
        #[trigger] brotli_makes(plain, quality, lgwin, c) && after.taken() == before.taken() + c
            && brotli_plain(c) == Some(plain)
}

impl<W: Sink> Encoder<W> {
    /// The parameters are in their ranges, and the error that is kept is the
    /// first one that the sink has given since.
    pub open spec fn wf(&self) -> bool {
        &&& params_fault(self.quality, self.lgwin) is None
        &&& self.out.tells() ==> match self.error {
            None => self.out.failures() == self.earlier@,
            Some(e) => e == Error::WriteZero || first_failure(self.earlier@, self.out.failures())
                == Some(e),
        }
    }

    /// Nothing but the sink can keep the stream from being written.
    pub open spec fn ready(&self) -> bool {
        self.error is None && brotli_takes(self.plain@, self.quality, self.lgwin)
    }

    /// `quality` is 0-11, `lgwin` (window size, log2) is 10-24.
    pub fn new(out: W, quality: u32, lgwin: u32) -> (r: Result<Self, Error>)
        ensures
            match r {
                Ok(e) => {
                    &&& params_fault(quality, lgwin) is None
                    &&& e.wf()
                    &&& e.out == out
                    &&& e.plain@.len() == 0
                    &&& e.quality == quality
                    &&& e.lgwin == lgwin
                    &&& e.error is None
                    &&& e.earlier@ == out.failures()
                },
                Err(e) => params_fault(quality, lgwin) == Some(e),
            },
    {
        match check_params(quality, lgwin) {
            Ok(_) => {
                let ghost before = out.failures();
                Ok(Encoder {
                    out,
                    plain: Vec::new(),
                    quality,
                    lgwin,
                    error: None,
                    earlier: Ghost(before),
                })
            },
            Err(e) => Err(e),
        }
    }

    /// Adds bytes to the stream.
    pub fn write_all(&mut self, buf: &[u8]) -> (r: Result<(), Error>)
        ensures
            r is Ok,
            final(self).plain@ == old(self).plain@ + buf@,
            final(self).out == old(self).out,
            final(self).quality == old(self).quality,
            final(self).lgwin == old(self).lgwin,
            final(self).error == old(self).error,
            final(self).earlier == old(self).earlier,
    {
        push_bytes(&mut self.plain, buf);
        Ok(())
    }

    /// Flushes the sink. Its first error is kept for the end.
    pub fn flush(&mut self) -> (r: Result<(), Error>)
        ensures
            final(self).plain == old(self).plain,
            final(self).quality == old(self).quality,
            final(self).lgwin == old(self).lgwin,
            final(self).earlier == old(self).earlier,
            old(self).wf() && old(self).out.tells() ==> final(self).wf(),
            match r {
                Ok(()) => final(self).error == old(self).error,
                Err(e) => final(self).error == Some(
                    match old(self).error {
                        Some(first) => first,
                        None => e,
                    },
                ),
            },
            old(self).out.tells() ==> final(self).out.tells() && final(self).out.taken() == old(
                self,
            ).out.taken() && final(self).out.failures() == (match r {
                Ok(()) => old(self).out.failures(),
                Err(e) => old(self).out.failures().push(e),
            }),
            old(self).out.reliable() ==> r is Ok && final(self).out.reliable(),
            old(self).out.refuses() is Some ==> r == Err::<(), Error>(
                old(self).out.refuses()->Some_0,
            ),
    {
        let ghost before = self.out.failures();
        match self.out.flush() {
            Ok(()) => Ok(()),
            Err(e) => {
                assert(before.push(e).take(before.len() as int) =~= before);
                proof {
                    let n = self.earlier@.len() as int;
                    if n < before.len() {
                        assert(before.push(e).take(n) =~= before.take(n));
                    }
                }
                if self.error.is_none() {
                    self.error = Some(e);
                }
                Err(e)
            },
        }
    }

    /// Writes the stream, and flushes the sink. It succeeds exactly when the
    /// sink has given no error, then or before; else the first one is
    /// reported. A sink that takes nothing but gives no error is reported as
    /// such.
    pub fn complete(&mut self) -> (r: Result<(), Error>)
        requires
            old(self).wf(),
        ensures
            final(self).plain == old(self).plain,
            final(self).quality == old(self).quality,
            final(self).lgwin == old(self).lgwin,
            final(self).earlier == old(self).earlier,
            old(self).out.tells() ==> final(self).out.tells() && final(self).wf(),
            match r {
                Ok(()) => {
                    &&& old(self).ready()
                    &&& old(self).out.refuses() is None
                    &&& old(self).out.tells() ==> has_stream(
                        old(self).out,
                        final(self).out,
                        old(self).plain@,
                        old(self).quality,
                        old(self).lgwin,
                    )
                },
                Err(e) => match old(self).error {
                    Some(first) => e == first && final(self).error == Some(first),
                    None => if !old(self).ready() {
                        e == Error::BrotliFailed
                    } else {
                        &&& !old(self).out.reliable()
                        &&& final(self).error == Some(e)
                        &&& old(self).out.refuses() is Some ==> e == old(self).out.refuses()->Some_0
                        &&& old(self).out.tells() ==> {
                            ||| e == Error::WriteZero && final(self).out.failures() == old(
                                self,
                            ).out.failures()
                            ||| final(self).out.failures() == old(self).out.failures().push(e)
                        }
                    },
                },
            },
    {
        if let Some(e) = self.error {
            return Err(e);
        }
        let bytes: Vec<u8> = match compressed(&self.plain, self.quality, self.lgwin) {
            Some(b) => b,
            None => {
                return Err(Error::BrotliFailed);
            },
        };
        assert(brotli_makes(self.plain@, self.quality, self.lgwin, bytes@));
        let ghost before = self.out.failures();
        assert forall|e: Error| #[trigger] before.push(e).take(before.len() as int) == before by {
            assert(before.push(e).take(before.len() as int) =~= before);
        }
        match write_all(&mut self.out, &bytes) {
            Ok(_) => {},
            Err(e) => {
                self.error = Some(e);
                return Err(e);
            },
        }
        match self.out.flush() {
            Ok(_) => Ok(()),
            Err(e) => {
                self.error = Some(e);
                Err(e)
            },
        }
    }

    /// Writes the stream, and flushes the sink. What the sink has taken then
    /// decompresses to what was written. It succeeds only where the sink has
    /// given no error since the encoder was made; else the first one is
    /// reported.
    pub fn finish(self) -> (r: Result<W, Error>)
        requires
            self.wf(),
        ensures
            match r {
                Ok(w) => {
                    &&& self.ready()
                    &&& self.out.refuses() is None
                    &&& self.out.tells() ==> w.failures() == self.earlier@ && has_stream(
                        self.out,
                        w,
                        self.plain@,
                        self.quality,
                        self.lgwin,
                    )
                },
                Err(e) => match self.error {
                    Some(first) => e == first,
                    None => if !self.ready() {
                        e == Error::BrotliFailed
                    } else {
                        &&& !self.out.reliable()
                        &&& self.out.refuses() is Some ==> e == self.out.refuses()->Some_0
                        &&& self.out.tells() ==> exists|w: W| #[trigger]
                            w.tells() && fails_with(self.earlier@, w.failures(), e)
                    },
                },
            },
    {
        let mut enc: Encoder<W> = self;
        match enc.complete() {
            Ok(()) => Ok(enc.out),
            Err(e) => {
                proof {
                    let all = self.out.failures();
                    assert(all.push(e).take(all.len() as int) =~= all);
                    assert(self.out.tells() ==> enc.out.tells());
                }
                Err(e)
            },
        }
    }
}

/// Brotli decompressor.
pub fn decoder(input: &[u8]) -> (r: Result<Vec<u8>, Error>)
    ensures
        match r {
            Ok(b) => brotli_plain(input@) == Some(b@),
            Err(e) => e == Error::CorruptBrotli && brotli_plain(input@) is None,
        },
{
    match decompressed(input) {
        Some(b) => Ok(b),
        None => Err(Error::CorruptBrotli),
    }
}

/// Compresses a file. Decompressing the result gives `data` back.
pub fn compress_file(data: &[u8], quality: u32, lgwin: u32) -> (r: Result<Vec<u8>, Error>)
    ensures
        match r {
            Ok(b) => {
                &&& params_fault(quality, lgwin) is None
                &&& brotli_makes(data@, quality, lgwin, b@)
                &&& brotli_plain(b@) == Some(data@)
            },
            Err(e) => match params_fault(quality, lgwin) {
                Some(f) => e == f,
                None => e == Error::BrotliFailed && !brotli_takes(data@, quality, lgwin),
            },
        },
{
    let none: Vec<u8> = Vec::new();
    let mut enc: Encoder<Vec<u8>> = match Encoder::new(none, quality, lgwin) {
        Ok(e) => e,
        Err(e) => {
            return Err(e);
        },
    };
    match enc.write_all(data) {
        Ok(_) => {},
        Err(e) => {
            return Err(e);
        },
    }
    assert(enc.plain@ =~= data@);
    let ghost before = enc;
    match enc.finish() {
        Ok(b) => {
            proof {
                let c = choose|c: Seq<u8>|
                    #[trigger] brotli_makes(before.plain@, quality, lgwin, c) && b.taken()
                        == before.out.taken() + c && brotli_plain(c) == Some(before.plain@);
                assert(b@ =~= c);
            }
            Ok(b)
        },
        Err(e) => Err(e),
    }
}

/// Decompresses a file.
pub fn decompress_file(data: &[u8]) -> (r: Result<Vec<u8>, Error>)
    ensures
        match r {
            Ok(b) => brotli_plain(data@) == Some(b@),
            Err(e) => e == Error::CorruptBrotli && brotli_plain(data@) is None,
        },
{
    decoder(data)
}

} // verus!
