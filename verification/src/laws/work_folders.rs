//! The files of a work folder: their names, what is created and removed, the
//! settings, and the date in the name of a ROM.
use vstd::prelude::*;
use crate::apart::lemma_find_prefix;
use crate::error::Error;
use crate::fs::order::{before, before_from};
use crate::laws::texts::{decimal_reads_back, is_tight, is_white, trimming_takes_white_space_off,
    white_points};
use crate::rom::config::{options_in, RepackOptions};
use crate::rom::name::{day_number, days_before, is_date, leaps, name_for};
use crate::rom::state::PartitionView;
use crate::rom::{created, is_unpacked, is_zip_name, lemma_plain_name, missing, part_names};
use crate::sdat::is_br_name;
use crate::text::{decimal, digit, padded};
use crate::words::{after_last, before_last, find, lemma_find, path_in, rfind, signed_in, split_at,
    trimmed};

verus! {

/// Two names that differ first in one byte are in the order of these bytes, and
/// a name comes before every longer one that starts with it.
pub proof fn names_are_compared_by_bytes(
    front: Seq<u8>,
    x: u8,
    y: u8,
    a: Seq<u8>,
    b: Seq<u8>,
)
    ensures
        x != y ==> before(front + seq![x] + a, front + seq![y] + b) == (x < y),
        before(front, front + seq![x] + a),
        !before(front + seq![x] + a, front),
        !before(front, front),
{
    let s = front + seq![x] + a;
    let t = front + seq![y] + b;
    lemma_before_at(s, t, front.len() as int, 0);
    lemma_before_at(front, s, front.len() as int, 0);
    lemma_before_at(s, front, front.len() as int, 0);
    lemma_before_at(front, front, front.len() as int, 0);
    assert(s[front.len() as int] == x && t[front.len() as int] == y);
}

proof fn lemma_before_at(s: Seq<u8>, t: Seq<u8>, n: int, i: int)
    requires
        0 <= i <= n <= s.len(),
        n <= t.len(),
        forall|k: int| 0 <= k < n ==> s[k] == t[k],
    ensures
        before_from(s, t, i) == before_from(s, t, n),
    decreases n - i,
{
    if i < n {
        lemma_before_at(s, t, n, i + 1);
    }
}

proof fn lemma_rfind(s: Seq<char>, c: char, i: int, n: int)
    requires
        -1 <= i < n <= s.len(),
        i >= 0 ==> s[i] == c,
        forall|k: int| i < k < n ==> s[k] != c,
    ensures
        rfind(s, c, n) == i,
    decreases n,
{
    if n > i + 1 {
        lemma_rfind(s, c, i, n - 1);
    }
}

/// A text is parted at the last separator, and at the first.
pub proof fn texts_are_parted(x: Seq<char>, c: char, y: Seq<char>)
    ensures
        !y.contains(c) ==> before_last(x + seq![c] + y, c) == x && after_last(x + seq![c] + y, c)
            == y && before_last(y, c) == Seq::<char>::empty() && after_last(y, c) == y,
        !x.contains(c) ==> split_at(x + seq![c] + y, c) == Some((x, y)) && split_at(x, c) is None,
{
    let s = x + seq![c] + y;
    let n = x.len() as int;
    assert(s[n] == c);
    if !y.contains(c) {
        assert forall|k: int| n < k < s.len() implies s[k] != c by {
            assert(s[k] == y[k - n - 1]);
        }
        lemma_rfind(s, c, n, s.len() as int);
        assert(s.take(n) =~= x);
        assert(s.skip(n + 1) =~= y);
        if y.len() > 0 {
            lemma_rfind(y, c, -1, y.len() as int);
        }
        assert(y.skip(0) =~= y);
    }
    if !x.contains(c) {
        lemma_find(x, c, 0);
        let e = find(x, c, 0);
        if e < x.len() {
            assert(x.contains(x[e]));
        }
        lemma_find_prefix(x, seq![c] + y, c, 0);
        assert(x + (seq![c] + y) =~= s);
        assert((seq![c] + y)[0] == c);
        assert(find(seq![c] + y, c, 0) == 0);
        assert(s.take(n) =~= x);
        assert(s.skip(n + 1) =~= y);
    }
}

/// A file in a folder has a slash between the two, unless the folder ends in
/// one; a name from the root stands for itself.
pub proof fn paths_are_joined(dir: Seq<char>, name: Seq<char>)
    requires
        name.len() > 0,
    ensures
        name[0] == '/' ==> path_in(dir, name) == name,
        name[0] != '/' && dir.len() > 0 && dir.last() != '/' ==> path_in(dir, name)
            == dir + seq!['/']
            + name,
        name[0] != '/' && (dir.len() == 0 || dir.last() == '/') ==> path_in(dir, name)
            == dir + name,
{
    assert(dir.push('/') + name =~= dir + seq!['/'] + name);
}

/// A ROM zip has a name that ends in `.zip`, in small or capital letters, with
/// something before it.
pub proof fn zip_names_end_in_zip(stem: Seq<u8>, dot: u8, z: u8, i: u8, p: u8)
    ensures
        is_zip_name(stem + seq![dot, z, i, p]) == (stem.len() > 0 && dot == 0x2e && (z == 0x7a || z
            == 0x5a) && (i == 0x69 || i == 0x49) && (p == 0x70 || p == 0x50)),
        stem.len() < 5 ==> !is_zip_name(stem),
{
    let n = stem + seq![dot, z, i, p];
    let k = n.len() as int;
    assert(n[k - 4] == dot && n[k - 3] == z && n[k - 2] == i && n[k - 1] == p);
}

/// Block data is compressed where the name of its file ends in `.br`, in small
/// or capital letters, with something before it.
pub proof fn compressed_names_end_in_br(dir: Seq<char>, name: Seq<char>, end: Seq<char>)
    requires
        !name.contains('/'),
        !end.contains('.'),
        !end.contains('/'),
    ensures
        is_br_name(dir + seq!['/'] + (name + seq!['.'] + end))
            == (name.len() > 0 && end.len() == 2 && (
        end[0] == 'b' || end[0] == 'B') && (end[1] == 'r' || end[1] == 'R')),
        is_br_name(name + seq!['.'] + end) == (name.len() > 0 && end.len() == 2 && (end[0] == 'b'
            || end[0] == 'B') && (end[1] == 'r' || end[1] == 'R')),
        !is_br_name(end),
{
    let file = name + seq!['.'] + end;
    assert(!file.contains('/')) by {
        if file.contains('/') {
            let k = choose|k: int| 0 <= k < file.len() && file[k] == '/';
            if k < name.len() {
                assert(name.contains(name[k]));
            } else if k > name.len() {
                assert(end.contains(end[k - name.len() - 1]));
            }
        }
    }
    texts_are_parted(dir, '/', file);
    texts_are_parted(name, '.', end);
    texts_are_parted(dir, '/', end);
    assert(file[name.len() as int] == '.');
    assert forall|k: int| name.len() < k < file.len() implies file[k] != '.' by {
        assert(file[k] == end[k - name.len() - 1]);
    }
    lemma_rfind(file, '.', name.len() as int, file.len() as int);
    if end.len() > 0 {
        lemma_rfind(end, '.', -1, end.len() as int);
    }
}

/// A work folder gets `input`, `output` and the settings where they are
/// missing, and nothing else.
pub proof fn missing_things_are_created(has_input: bool, has_output: bool, has_config: bool,
    x: Seq<char>)
    ensures
        ({
            let m = missing(has_input, has_output, has_config);
            m.contains(x) == ((x == "input"@ && !has_input) || (x == "output"@ && !has_output) || (x
                == "jancox.prop"@ && !has_config))
        }),
{
    let m = missing(has_input, has_output, has_config);
    let i: int = 0;
    let o: int = if has_input {
        0
    } else {
        1
    };
    if !has_input {
        assert(m[0] == "input"@);
    }
    if !has_output {
        assert(m[o] == "output"@);
    }
    if !has_config {
        assert(m[m.len() - 1] == "jancox.prop"@);
    }
}

proof fn lemma_part_name(parts: Seq<PartitionView>, i: int, n: int)
    requires
        0 <= i < n <= parts.len(),
        is_unpacked(parts[i].name),
    ensures
        part_names(parts, n).contains(parts[i].name),
    decreases n,
{
    let v = part_names(parts, n);
    if i == n - 1 {
        assert(v[v.len() - 1] == parts[i].name);
    } else {
        lemma_part_name(parts, i, n - 1);
        let w = part_names(parts, n - 1);
        let k = choose|k: int| 0 <= k < w.len() && w[k] == parts[i].name;
        assert(v[k] == w[k]);
    }
}

/// Cleaning up removes the rest of the ROM, the images, the partitions and the
/// state, and where the partitions are straight in the work folder, each of
/// them and `config`.
pub proof fn cleanup_removes(
    parts: Option<Seq<PartitionView>>,
    has_partition_dir: bool,
    all: bool,
    i: int,
)
    ensures
        ({
            let c = created(parts, has_partition_dir, all);
            &&& c.contains("rom"@) && c.contains("tmp"@) && c.contains("partition"@) && c.contains(
                "jancox_rom"@,
            )
            &&& parts is None || has_partition_dir ==> c.len() == if all {
                5int
            } else {
                4
            }
            &&& parts is Some && !has_partition_dir ==> c.contains("config"@)
            &&& parts is Some && !has_partition_dir && 0 <= i < parts->Some_0.len() ==> {
                let name = parts->Some_0[i].name;
                name.len() > 0 && name[0] != '.' && !name.contains('/') && name != "input"@ && name
                    != "output"@ ==> c.contains(name)
            }
        }),
{
    let c = created(parts, has_partition_dir, all);
    assert(c[0] == "rom"@ && c[1] == "tmp"@ && c[2] == "partition"@);
    let last = if all {
        c.len() - 2
    } else {
        c.len() - 1
    };
    assert(c[last] == "jancox_rom"@);
    if let Some(v) = parts {
        if !has_partition_dir {
            assert(c[last - 1] == "config"@);
            if 0 <= i < v.len() {
                let name = v[i].name;
                if name.len() > 0 && name[0] != '.' && !name.contains('/') && name != "input"@
                    && name != "output"@ {
                    lemma_plain_name(name);
                    lemma_part_name(v, i, v.len() as int);
                    let names = part_names(v, v.len() as int);
                    let k = choose|k: int| 0 <= k < names.len() && names[k] == name;
                    assert(c[3 + k] == name);
                }
            }
        }
    }
}

/// A setting sets its option to a number in its range, with white space around
/// the key and the number or not. Without settings both are 1.
pub proof fn settings_are_read(
    lines: Seq<Seq<char>>,
    key: Seq<char>,
    a: Seq<char>,
    b: Seq<char>,
    c: Seq<char>,
    d: Seq<char>,
    n: nat,
)
    requires
        options_in(lines, lines.len() as int) is Ok,
        is_white(a),
        is_white(b),
        is_white(c),
        is_white(d),
        key == "brotli.level"@ || key == "zip.level"@,
    ensures
        options_in(Seq::empty(), 0) == Ok::<RepackOptions, Error>(
            RepackOptions { brotli_quality: 1, zip_level: 1 },
        ),
        ({
            let opts = options_in(lines, lines.len() as int)->Ok_0;
            let line = a + ((key + b) + seq!['='] + (c + decimal(n))) + d;
            let r = options_in(lines.push(line), lines.len() as int + 1);
            if key == "brotli.level"@ {
                r == if n <= 11 {
                    Ok::<RepackOptions, Error>(
                        RepackOptions { brotli_quality: n as u32, zip_level: opts.zip_level },
                    )
                } else {
                    Err::<RepackOptions, Error>(Error::BadConfig((lines.len() + 1) as usize))
                }
            } else {
                r == if n <= 9 {
                    Ok::<RepackOptions, Error>(
                        RepackOptions { brotli_quality: opts.brotli_quality, zip_level: n as i64 },
                    )
                } else {
                    Err::<RepackOptions, Error>(Error::BadConfig((lines.len() + 1) as usize))
                }
            }
        }),
{
    reveal_strlit("brotli.level");
    reveal_strlit("zip.level");
    let v = decimal(n);
    decimal_reads_back(n);
    let core = (key + b) + seq!['='] + (c + v);
    let line = a + core + d;
    assert(key.len() > 0 && (key[0] == 'b' || key[0] == 'z') && key.last() == 'l');
    assert(core[0] == key[0]);
    assert(core.last() == v.last());
    lemma_no_white(key[0]);
    lemma_no_white(key.last());
    lemma_no_white(v.last());
    lemma_no_white(v[0]);
    trimming_takes_white_space_off(a, core, d);
    let none = Seq::<char>::empty();
    trimming_takes_white_space_off(none, key, b);
    assert(none + key + b =~= key + b);
    trimming_takes_white_space_off(c, v, none);
    assert(c + v + none =~= c + v);
    assert(!(key + b).contains('=')) by {
        if (key + b).contains('=') {
            let k = choose|k: int| 0 <= k < (key + b).len() && (key + b)[k] == '=';
            if k >= key.len() {
                assert(white_points().contains(b[k - key.len()] as int));
                lemma_no_white('=');
            } else if key == "brotli.level"@ {
                assert(key[k] == "brotli.level"@[k]);
            } else {
                assert(key[k] == "zip.level"@[k]);
            }
        }
    }
    texts_are_parted(key + b, '=', c + v);
    assert(lines.push(line)[lines.len() as int] == line);
    lemma_options_prefix(lines, line, lines.len() as int);
    if key == "zip.level"@ {
        assert("brotli.level"@.len() == 12 && "zip.level"@.len() == 9);
    }
    assert(signed_in(v) == if n <= i64::MAX {
        Some(n as int)
    } else {
        None::<int>
    });
}

proof fn lemma_no_white(c: char)
    ensures
        0x21 <= c as int <= 0x7e ==> !white_points().contains(c as int),
{
    crate::laws::texts::white_space_is_unicode(c);
}

proof fn lemma_options_prefix(lines: Seq<Seq<char>>, line: Seq<char>, n: int)
    requires
        0 <= n <= lines.len(),
    ensures
        options_in(lines.push(line), n) == options_in(lines, n),
    decreases n,
{
    if n > 0 {
        lemma_options_prefix(lines, line, n - 1);
        assert(lines.push(line)[n - 1] == lines[n - 1]);
    }
}

/// Comments, blank lines and keys that are not known change nothing. A line
/// without a key is wrong, and the first wrong line is told.
pub proof fn other_settings_change_nothing(
    lines: Seq<Seq<char>>,
    a: Seq<char>,
    text: Seq<char>,
    key: Seq<char>,
    value: Seq<char>,
)
    requires
        options_in(lines, lines.len() as int) is Ok,
        is_white(a),
        is_tight(text),
        is_tight(key),
        !key.contains('='),
        key[0] != '#',
        key != "brotli.level"@,
        key != "zip.level"@,
        is_tight(value),
    ensures
        ({
            let opts = options_in(lines, lines.len() as int);
            let n = lines.len() as int + 1;
            &&& options_in(lines.push(a), n) == opts
            &&& text[0] == '#' ==> options_in(lines.push(a + text), n) == opts
            &&& options_in(lines.push(key + seq!['='] + value), n) == opts
            &&& options_in(lines.push(key), n) == Err::<RepackOptions, Error>(
                Error::BadConfig(n as usize),
            )
        }),
{
    let none = Seq::<char>::empty();
    let n = lines.len() as int;
    let full = key + seq!['='] + value;
    trimming_takes_white_space_off(a, text, none);
    assert(a + text + none =~= a + text);
    trimming_takes_white_space_off(none, full, none);
    assert(none + full + none =~= full);
    trimming_takes_white_space_off(none, key, none);
    assert(none + key + none =~= key);
    trimming_takes_white_space_off(none, value, none);
    assert(none + value + none =~= value);
    texts_are_parted(key, '=', value);
    lemma_white_line(a);
    lemma_options_prefix(lines, a, n);
    lemma_options_prefix(lines, a + text, n);
    lemma_options_prefix(lines, full, n);
    lemma_options_prefix(lines, key, n);
    assert(lines.push(a)[n] == a && lines.push(a + text)[n] == a + text);
    assert(lines.push(full)[n] == full && lines.push(key)[n] == key);
}

proof fn lemma_white_line(a: Seq<char>)
    requires
        is_white(a),
    ensures
        trimmed(a).len() == 0,
{
    let none = Seq::<char>::empty();
    trimming_takes_white_space_off(a, none, none);
    assert(a + none + none =~= a);
}

/// The days of a month of the Gregorian calendar.
pub open spec fn days_of(y: int, m: int) -> int {
    let leap = y % 400 == 0 || (y % 4 == 0 && y % 100 != 0);
    let february: int = if leap {
        29
    } else {
        28
    };
    seq![31, february, 31, 30, 31, 30, 31, 31, 30, 31, 30, 31][m - 1]
}

/// Days are counted from the first of January 1970, and each day has the number
/// after that of the day before it.
pub proof fn days_are_counted(y: int, m: int, d: int)
    ensures
        is_date(y, m, d) == (1 <= m <= 12 && 1 <= d <= days_of(y, m)),
        day_number(1970, 1, 1) == 0,
        is_date(y, m, d) ==> {
            let next = if d < days_of(y, m) {
                (y, m, d + 1)
            } else if m < 12 {
                (y, m + 1, 1int)
            } else {
                (y + 1, 1int, 1int)
            };
            day_number(next.0, next.1, next.2) == day_number(y, m, d) + 1
        },
{
    let leap = y % 400 == 0 || (y % 4 == 0 && y % 100 != 0);
    let february: int = if leap {
        29
    } else {
        28
    };
    let t = seq![31, february, 31, 30, 31, 30, 31, 31, 30, 31, 30, 31];
    assert(t[0] == 31 && t[1] == february && t[2] == 31 && t[3] == 30 && t[4] == 31 && t[5] == 30);
    assert(t[6] == 31 && t[7] == 31 && t[8] == 30 && t[9] == 31 && t[10] == 30 && t[11] == 31);
    reveal_with_fuel(days_before, 14);
    assert(leaps(y + 1) - leaps(y) == if leap {
        1int
    } else {
        0
    });
}

/// The name of a ROM says the date and the time of day: the year, month, day,
/// hour, minute and second, each with its digits.
pub proof fn rom_names_say_the_time(y: nat, m: nat, d: nat, hour: nat, minute: nat, second: nat)
    requires
        y < 10000,
        1 <= m <= 12,
        1 <= d <= 31,
        hour < 24,
        minute < 60,
        second < 60,
    ensures
        ({
            let s = name_for(y, m, d, hour * 3600 + minute * 60 + second);
            &&& s.len() == 22
            &&& s.take(7) == "NewROM-"@
            &&& s[7] as int == 0x30 + y / 1000 && s[8] as int == 0x30 + y / 100 % 10
            &&& s[9] as int == 0x30 + y / 10 % 10 && s[10] as int == 0x30 + y % 10
            &&& s[11] as int == 0x30 + m / 10 && s[12] as int == 0x30 + m % 10
            &&& s[13] as int == 0x30 + d / 10 && s[14] as int == 0x30 + d % 10
            &&& s[15] == '-'
            &&& s[16] as int == 0x30 + hour / 10 && s[17] as int == 0x30 + hour % 10
            &&& s[18] as int == 0x30 + minute / 10 && s[19] as int == 0x30 + minute % 10
            &&& s[20] as int == 0x30 + second / 10 && s[21] as int == 0x30 + second % 10
        }),
{
    reveal_strlit("NewROM-");
    reveal_strlit("-");
    reveal_with_fuel(padded, 5);
    let rem = hour * 3600 + minute * 60 + second;
    assert(rem / 3600 == hour);
    assert(rem % 3600 / 60 == minute);
    assert(rem % 60 == second);
    assert(padded(y, 4) =~= seq![
        digit((y / 10 / 10 / 10 % 10) as int),
        digit((y / 10 / 10 % 10) as int),
        digit((y / 10 % 10) as int),
        digit((y % 10) as int),
    ]);
    lemma_two(m);
    lemma_two(d);
    lemma_two(hour);
    lemma_two(minute);
    lemma_two(second);
    let s = name_for(y, m, d, rem);
    assert(s.take(7) =~= "NewROM-"@);
}

proof fn lemma_two(n: nat)
    requires
        n < 100,
    ensures
        padded(n, 2) == seq![digit((n / 10) as int), digit((n % 10) as int)],
        0 <= n / 10 < 10,
{
    reveal_with_fuel(padded, 3);
    assert(padded(n, 2) =~= seq![digit((n / 10 % 10) as int), digit((n % 10) as int)]);
}

} // verus!
