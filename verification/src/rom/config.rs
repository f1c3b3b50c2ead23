//! The settings file of a work folder.
use vstd::prelude::*;
use crate::br::DEFAULT_QUALITY;
use crate::error::Error;
use crate::text::chars_of;
use crate::words::{lines, lines_of, number_upto, parse_number, parse_signed, same_chars,
    signed_in, split_at, split_once,
    texts_view, trim, trimmed};

verus! {

#[derive(Debug, Clone, Copy, PartialEq, Eq, Structural)]
pub struct RepackOptions {
    /// Brotli quality (0-11) for `.new.dat.br`.
    pub brotli_quality: u32,
    /// Deflate level (0-9) for the other files in the zip.
    pub zip_level: i64,
}

pub open spec fn default_options() -> RepackOptions {
    RepackOptions { brotli_quality: DEFAULT_QUALITY, zip_level: 1 }
}

impl Default for RepackOptions {
    fn default() -> (r: Self)
        ensures
            r == default_options(),
    {
        RepackOptions { brotli_quality: DEFAULT_QUALITY, zip_level: 1 }
    }
}

/// What a new settings file holds.
pub const DEFAULT_CONFIG: &'static str = "\
# Jancox tool settings, read by `jancox repack`.
# Command line options (-b, -z) win over these.

# brotli quality for <partition>.new.dat.br: 0 (fastest) - 11 (smallest)
brotli.level=1

# deflate level for the other files in the ROM zip: 0 (store) - 9 (smallest)
zip.level=1
";

/// A deflate level.
pub open spec fn level_in(s: Seq<char>) -> Option<i64> {
    match signed_in(s) {
        Some(n) => if 0 <= n <= 9 {
            Some(n as i64)
        } else {
            None
        },
        None => None,
    }
}

/// The options with the setting of a line; nothing for a line that is wrong.
/// Blank lines, comments and unknown keys change nothing.
pub open spec fn with_setting(opts: RepackOptions, line: Seq<char>) -> Option<RepackOptions> {
    let t = trimmed(line);
    if t.len() == 0 || t[0] == '#' {
        Some(opts)
    } else {
        match split_at(t, '=') {
            None => None,
            Some((key, value)) => if trimmed(key) == "brotli.level"@ {
                match number_upto(trimmed(value), 10, 11) {
                    Some(q) => Some(RepackOptions { brotli_quality: q as u32, ..opts }),
                    None => None,
                }
            } else if trimmed(key) == "zip.level"@ {
                match level_in(trimmed(value)) {
                    Some(z) => Some(RepackOptions { zip_level: z, ..opts }),
                    None => None,
                }
            } else {
                Some(opts)
            },
        }
    }
}

/// The options after the first `n` lines, or the number of the first line
/// that is wrong.
pub open spec fn options_in(lines: Seq<Seq<char>>, n: int) -> Result<RepackOptions, Error>
    decreases n,
{
    if n <= 0 {
        Ok(default_options())
    } else {
        match options_in(lines, n - 1) {
            Err(e) => Err(e),
            Ok(opts) => match with_setting(opts, lines[n - 1]) {
                Some(o) => Ok(o),
                None => Err(Error::BadConfig(n as usize)),
            },
        }
    }
}

fn parse_level(s: &[char]) -> (r: Option<i64>)
    ensures
        r == level_in(s@),
{
    match parse_signed(s) {
        Some(n) => if 0 <= n && n <= 9 {
            Some(n)
        } else {
            None
        },
        None => None,
    }
}

fn apply_line(opts: RepackOptions, line: &[char]) -> (r: Option<RepackOptions>)
    ensures
        r == with_setting(opts, line@),
{
    let t: Vec<char> = trim(line);
    if t.len() == 0 || t[0] == '#' {
        return Some(opts);
    }
    let (key, value): (Vec<char>, Vec<char>) = match split_once(&t, '=') {
        Some(x) => x,
        None => {
            return None;
        },
    };
    let key: Vec<char> = trim(&key);
    let value: Vec<char> = trim(&value);
    if same_chars(&key, &chars_of("brotli.level")) {
        match parse_number(&value, 10, 11) {
            Some(q) => Some(RepackOptions { brotli_quality: q as u32, ..opts }),
            None => None,
        }
    } else if same_chars(&key, &chars_of("zip.level")) {
        match parse_level(&value) {
            Some(z) => Some(RepackOptions { zip_level: z, ..opts }),
            None => None,
        }
    } else {
        // newer settings don't break older builds
        Some(opts)
    }
}

proof fn lemma_stays_wrong(lines: Seq<Seq<char>>, i: int, n: int)
    requires
        i <= n,
        options_in(lines, i) is Err,
    ensures
        options_in(lines, n) == options_in(lines, i),
    decreases n - i,
{
    if i < n {
        lemma_stays_wrong(lines, i, n - 1);
    }
}

/// Repack options from the settings file; defaults when it is missing.
pub fn load_config(text: Option<&str>) -> (r: Result<RepackOptions, Error>)
    ensures
        match text {
            None => r == Ok::<RepackOptions, Error>(default_options()),
            Some(t) => r == options_in(lines_of(t@), lines_of(t@).len() as int),
        },
{
    let mut opts: RepackOptions = RepackOptions::default();
    let body: &str = match text {
        Some(t) => t,
        None => {
            return Ok(opts);
        },
    };
    let ls: Vec<Vec<char>> = lines(&chars_of(body));
    let ghost all = lines_of(body@);
    let n: usize = ls.len();
    let mut i: usize = 0;
    while i < n
        invariant
            i <= n,
            n == ls@.len(),
            n == all.len(),
            all == texts_view(ls@),
            text is Some,
            lines_of(text->Some_0@) == all,
            options_in(all, i as int) == Ok::<RepackOptions, Error>(opts),
        decreases n - i,
    {
        assert(all[i as int] == ls@[i as int]@);
        match apply_line(opts, &ls[i]) {
            Some(o) => {
                opts = o;
            },
            None => {
                proof {
                    lemma_stays_wrong(all, i + 1, n as int);
                }
                return Err(Error::BadConfig(i + 1));
            },
        }
        i += 1;
    }
    Ok(opts)
}

/// The options are in their ranges.
pub open spec fn options_valid(opts: RepackOptions) -> bool {
    opts.brotli_quality <= 11 && 0 <= opts.zip_level <= 9
}

/// Options that a settings file gives are in their ranges.
pub proof fn config_is_valid(lines: Seq<Seq<char>>, n: int)
    ensures
        match options_in(lines, n) {
            Ok(opts) => options_valid(opts),
            Err(_) => true,
        },
    decreases n,
{
    if n > 0 {
        config_is_valid(lines, n - 1);
    }
}

} // verus!
