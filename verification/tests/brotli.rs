use jancox::br::{self, decoder, Encoder, Sink};
use jancox::dat::img_to_dat;
use jancox::error::Error;
use jancox::sdat::{is_brotli, new_data};
use std::cell::Cell;
use std::rc::Rc;

fn sample() -> Vec<u8> {
    (0..300_000u32)
        .flat_map(|i| (i % 251).to_le_bytes())
        .collect()
}

#[test]
fn roundtrip() {
    for (quality, lgwin) in [(0, 10), (1, 24), (6, 22), (11, 24)] {
        let mut enc = Encoder::new(Vec::new(), quality, lgwin).unwrap();
        enc.write_all(&sample()).unwrap();
        let br = enc.finish().unwrap();
        assert!(br.len() < sample().len());

        let back = decoder(&br[..]).unwrap();
        assert_eq!(back, sample(), "quality {} lgwin {}", quality, lgwin);
    }
}

#[test]
fn bad_params() {
    assert!(Encoder::new(Vec::<u8>::new(), 12, 24).is_err());
    assert!(Encoder::new(Vec::<u8>::new(), 1, 25).is_err());
    assert!(Encoder::new(Vec::<u8>::new(), 1, 9).is_err());
}

/// Fails like a full disk once `full` is set.
struct Disk {
    full: Rc<Cell<bool>>,
}

impl Sink for Disk {
    fn write(&mut self, buf: &[u8]) -> Result<usize, Error> {
        if self.full.get() {
            return Err(Error::StorageFull);
        }
        Ok(buf.len())
    }

    fn flush(&mut self) -> Result<(), Error> {
        Ok(())
    }
}

#[test]
fn write_error_in_final_flush_is_reported() {
    let full = Rc::new(Cell::new(false));
    let mut enc = Encoder::new(Disk { full: full.clone() }, 1, 24).unwrap();
    enc.write_all(&sample()).unwrap();
    full.set(true);
    let err = enc.finish().err().expect("finish must fail");
    assert_eq!(err, Error::StorageFull);
}

/// Takes a few bytes at a time, or none at all.
struct Slow {
    bytes: Rc<Cell<usize>>,
    step: usize,
}

impl Sink for Slow {
    fn write(&mut self, buf: &[u8]) -> Result<usize, Error> {
        let n = buf.len().min(self.step);
        self.bytes.set(self.bytes.get() + n);
        Ok(n)
    }

    fn flush(&mut self) -> Result<(), Error> {
        Ok(())
    }
}

#[test]
fn short_writes_go_on() {
    let bytes = Rc::new(Cell::new(0));
    let out = Slow { bytes: bytes.clone(), step: 3 };
    let mut enc = Encoder::new(out, 1, 24).unwrap();
    enc.write_all(&sample()).unwrap();
    enc.finish().ok().unwrap();
    assert_eq!(bytes.get(), br::compress_file(&sample(), 1, 24).unwrap().len());
}

#[test]
fn a_sink_that_takes_nothing() {
    let out = Slow { bytes: Rc::new(Cell::new(0)), step: 0 };
    let mut enc = Encoder::new(out, 1, 24).unwrap();
    enc.write_all(&sample()).unwrap();
    assert_eq!(enc.finish().err(), Some(Error::WriteZero));
}

/// Fails differently each time.
struct Failing {
    times: u32,
}

impl Sink for Failing {
    fn write(&mut self, _: &[u8]) -> Result<usize, Error> {
        self.times += 1;
        Err(if self.times == 1 { Error::StorageFull } else { Error::UnexpectedEof })
    }

    fn flush(&mut self) -> Result<(), Error> {
        self.times += 1;
        Err(if self.times == 1 { Error::StorageFull } else { Error::UnexpectedEof })
    }
}

#[test]
fn first_error_is_kept() {
    let mut enc = Encoder::new(Failing { times: 0 }, 1, 24).unwrap();
    enc.write_all(&sample()).unwrap();
    assert_eq!(enc.flush(), Err(Error::StorageFull));
    assert_eq!(enc.flush(), Err(Error::UnexpectedEof));
    assert_eq!(enc.complete(), Err(Error::StorageFull));
    assert_eq!(enc.finish().err(), Some(Error::StorageFull));
}

#[test]
fn an_error_of_the_end_is_kept() {
    let mut enc = Encoder::new(Failing { times: 0 }, 1, 24).unwrap();
    enc.write_all(&sample()).unwrap();
    assert_eq!(enc.complete(), Err(Error::StorageFull));
    assert_eq!(enc.finish().err(), Some(Error::StorageFull));
}

#[test]
fn flush_in_between() {
    let mut enc = Encoder::new(Vec::new(), 1, 24).unwrap();
    enc.write_all(&sample()[..1000]).unwrap();
    enc.flush().unwrap();
    enc.write_all(&sample()[1000..]).unwrap();
    assert_eq!(decoder(&enc.finish().unwrap()).unwrap(), sample());
}

#[test]
fn quality_and_window_matter() {
    let fast = br::compress_file(&sample(), 0, 10).unwrap();
    let slow = br::compress_file(&sample(), 11, 24).unwrap();
    assert!(slow.len() < fast.len());
}

#[test]
fn corrupt_input_is_an_error() {
    let mut enc = Encoder::new(Vec::new(), 1, 24).unwrap();
    enc.write_all(&sample()).unwrap();
    let mut br = enc.finish().unwrap();
    br.truncate(br.len() / 2);
    assert!(decoder(&br[..]).is_err());
}

#[test]
fn param_errors() {
    assert_eq!(br::check_params(12, 24), Err(Error::BadQuality));
    assert_eq!(br::check_params(1, 9), Err(Error::BadWindow));
    assert_eq!(br::check_params(1, 25), Err(Error::BadWindow));
    assert_eq!(br::check_params(11, 10), Ok(()));
}

#[test]
fn files_in_memory() {
    let packed = br::compress_file(&sample(), br::DEFAULT_QUALITY, br::DEFAULT_LGWIN).unwrap();
    assert_ne!(packed, sample());
    assert_eq!(br::decompress_file(&packed).unwrap(), sample());
    assert_eq!(br::decompress_file(&[1, 2, 3]), Err(Error::CorruptBrotli));
    assert_eq!(br::compress_file(&[], 12, 24), Err(Error::BadQuality));
}

#[test]
fn empty_data() {
    let packed = br::compress_file(&[], 1, 24).unwrap();
    assert_eq!(br::decompress_file(&packed).unwrap(), Vec::<u8>::new());
}

#[test]
fn block_data_by_name() {
    assert!(is_brotli("system.new.dat.br"));
    assert!(is_brotli("system.new.dat.BR"));
    assert!(!is_brotli("system.new.dat"));
    assert!(!is_brotli(".br"));
    assert!(!is_brotli("xbr"));
    assert!(!is_brotli("d/.br"));
    assert!(is_brotli("d.x/a.br"));
    assert!(!is_brotli("d.br/a"));
    let packed = br::compress_file(&sample(), 1, 24).unwrap();
    assert_eq!(new_data("system.new.dat.br", packed.clone()).unwrap(), sample());
    assert_eq!(new_data("system.new.dat", packed.clone()).unwrap(), packed);
    let half = packed[..packed.len() / 2].to_vec();
    assert_eq!(new_data("system.new.dat.br", half), Err(Error::CorruptBrotli));
}

#[test]
fn files_of_an_image() {
    let files = img_to_dat("system", 1, b"4\n0\n", &sample()).unwrap();
    assert_eq!(files.len(), 3);
    assert_eq!(files[0].0, "system.new.dat.br");
    assert_eq!(decoder(&files[0].1).unwrap(), sample());
    assert_eq!(files[1], ("system.patch.dat".to_string(), vec![]));
    assert_eq!(files[2], ("system.transfer.list".to_string(), b"4\n0\n".to_vec()));
    assert_eq!(img_to_dat("x", 12, b"", b"").err(), Some(Error::BadQuality));
}
