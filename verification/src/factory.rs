//! Fastboot ROMs such as Pixel factory images:
//!
//! ```text
//! <device>-<build>/flash-all.sh, bootloader-*.img, radio-*.img, ...
//! <device>-<build>/image-<device>-<build>.zip   stored (not compressed), holds
//!     android-info.txt, fastboot-info.txt, super_empty.img, vbmeta*.img,
//!     boot.img, ..., system.img, vendor.img, product.img, ... (raw images)
//! ```
//!
//! `fastboot update image-*.zip` (used by flash-all.sh) flashes the inner
//! zip. Partition images are raw ext4 or EROFS followed by their AVB
//! hashtree and footer. A plain `image-*.zip` is accepted as a ROM too.
use vstd::prelude::*;
use crate::archive::{read_entry as read_zip_entry, zip_entry, EntryView, ZipEntry};
use crate::bytes::{be32, copy_range, get32, get64, get_be32, le32, le64, put_be32, same_outside};
use crate::error::Error;
use crate::text::{chars_of, cstr, same_text, string_of, text_of, until_nul};
use crate::words::{after_last, ends, has_prefix, has_suffix, lemma_find, position, split_last,
    starts};

verus! {

/// The name of the inner zip of a factory zip, in any folder.
pub open spec fn is_inner_zip(name: Seq<char>) -> bool {
    let base = after_last(name, '/');
    has_prefix(base, "image-"@) && has_suffix(base, ".zip"@)
}

fn inner_zip(name: &str) -> (r: bool)
    ensures
        r == is_inner_zip(name@),
{
    let chars: Vec<char> = chars_of(name);
    let (_, base): (Vec<char>, Vec<char>) = split_last(&chars, '/');
    let front: Vec<char> = chars_of("image-");
    let back: Vec<char> = chars_of(".zip");
    starts(&base, &front) && ends(&base, &back)
}

/// The inner `image-*.zip` of a factory zip, by entry name.
pub fn find_image_zip<'a>(names: &[&'a str]) -> (r: Option<&'a str>)
    ensures
        match r {
            Some(n) => exists|i: int|
                0 <= i < names@.len() && #[trigger] names@[i] == n && is_inner_zip(n@) && forall|
                    j: int,
                |
                    0 <= j < i ==> !is_inner_zip((#[trigger] names@[j])@),
            None => forall|j: int| 0 <= j < names@.len() ==> !is_inner_zip((#[trigger] names@[j])@),
        },
{
    let mut i: usize = 0;
    while i < names.len()
        invariant
            i <= names@.len(),
            forall|j: int| 0 <= j < i ==> !is_inner_zip((#[trigger] names@[j])@),
        decreases names.len() - i,
    {
        if inner_zip(names[i]) {
            assert(names@[i as int] == names@[i as int]);
            return Some(names[i]);
        }
        i += 1;
    }
    None
}

/// A partition image at the root of a zip.
pub open spec fn is_root_image(name: Seq<char>) -> bool {
    !name.contains('/') && has_suffix(name, ".img"@)
}

fn root_image(name: &str) -> (r: bool)
    ensures
        r == is_root_image(name@),
{
    let chars: Vec<char> = chars_of(name);
    let back: Vec<char> = chars_of(".img");
    let at: usize = position(&chars, '/', 0);
    proof {
        lemma_find(chars@, '/', 0);
        if at < chars@.len() {
            assert(name@.contains(chars@[at as int]));
        }
    }
    at >= chars.len() && ends(&chars, &back)
}

/// True for a zip that `fastboot update` flashes: android-info.txt and
/// partition images at its root.
pub fn is_image_zip(names: &[&str]) -> (r: bool)
    ensures
        r == ((exists|i: int| 0 <= i < names@.len() && (#[trigger] names@[i])@ == "android-info.txt"@)
            && exists|i: int| 0 <= i < names@.len() && is_root_image((#[trigger] names@[i])@)),
{
    let mut info: bool = false;
    let mut image: bool = false;
    let mut i: usize = 0;
    while i < names.len()
        invariant
            i <= names@.len(),
            info == exists|k: int| 0 <= k < i && (#[trigger] names@[k])@ == "android-info.txt"@,
            image == exists|k: int| 0 <= k < i && is_root_image((#[trigger] names@[k])@),
        decreases names.len() - i,
    {
        if same_text(names[i], "android-info.txt") {
            info = true;
            assert(names@[i as int]@ == "android-info.txt"@);
        }
        if root_image(names[i]) {
            image = true;
            assert(is_root_image(names@[i as int]@));
        }
        i += 1;
    }
    info && image
}

/// Byte range of a stored (uncompressed) entry within its zip, or `None` when
/// the entry is compressed.
pub fn range_of(e: &ZipEntry) -> (r: Result<Option<(u64, u64)>, Error>)
    ensures
        r == range_in(e@),
{
    if !e.stored || e.encrypted {
        return Ok(None);
    }
    match e.start {
        Some(start) => Ok(Some((start, e.size))),
        None => Err(Error::NoDataOffset),
    }
}

/// Byte range of a stored entry.
pub open spec fn range_in(e: EntryView) -> Result<Option<(u64, u64)>, Error> {
    if !e.stored || e.encrypted {
        Ok(None)
    } else {
        match e.start {
            Some(start) => Ok(Some((start, e.size))),
            None => Err(Error::NoDataOffset),
        }
    }
}

/// Byte range of a stored (uncompressed) zip entry within the zip file,
/// or `None` when the entry is compressed.
pub fn stored_range(zip: &Vec<u8>, index: usize) -> (r: Result<Option<(u64, u64)>, Error>)
    ensures
        r == (match zip_entry(zip@, index as int) {
            Some(e) => range_in(e),
            None => Err(Error::BadZip),
        }),
{
    match read_zip_entry(zip, index) {
        Some(e) => range_of(&e),
        None => Err(Error::BadZip),
    }
}

/// `len` bytes of a zip at `start`, as bytes of their own.
pub fn open_window(zip: &Vec<u8>, start: u64, len: u64) -> (r: Result<Vec<u8>, Error>)
    ensures
        match r {
            Ok(b) => start + len <= zip@.len() && b@ == zip@.subrange(start as int, start + len),
            Err(e) => e == Error::TruncatedZip && start + len > zip@.len(),
        },
{
    let total: u64 = zip.len() as u64;
    if start > total || len > total - start {
        return Err(Error::TruncatedZip);
    }
    Ok(copy_range(zip, start as usize, (start + len) as usize))
}

/// Offset of the big-endian `flags` field in the vbmeta header.
pub const AVB_FLAGS_OFFSET: usize = 120;

/// AVB_VBMETA_IMAGE_FLAGS_HASHTREE_DISABLED | ..._VERIFICATION_DISABLED
pub const AVB_FLAGS_DISABLED: u32 = 3;

/// A vbmeta image: it starts with `AVB0`.
pub open spec fn is_vbmeta(b: Seq<u8>) -> bool {
    b.len() >= 256 && b[0] == 0x41 && b[1] == 0x56 && b[2] == 0x42 && b[3] == 0x30
}

/// The flags of a vbmeta image.
pub open spec fn avb_flags(b: Seq<u8>) -> u32 {
    be32(b, 120) as u32
}

/// Verification is disabled.
pub open spec fn is_disabled(b: Seq<u8>) -> bool {
    avb_flags(b) & 3 == 3
}

/// Sets the vbmeta flags that disable dm-verity and AVB verification in a
/// vbmeta image, like `fastboot --disable-verity --disable-verification
/// flash vbmeta`. Returns false when they were already set. The device
/// must be unlocked.
pub fn disable_verification(vbmeta: &mut Vec<u8>) -> (r: Result<bool, Error>)
    ensures
        match r {
            Err(e) => e == Error::NotVbmeta && !is_vbmeta(old(vbmeta)@) && final(vbmeta)@ == old(
                vbmeta,
            )@,
            Ok(false) => is_vbmeta(old(vbmeta)@) && is_disabled(old(vbmeta)@) && final(vbmeta)@
                == old(vbmeta)@,
            Ok(true) => is_vbmeta(old(vbmeta)@) && !is_disabled(old(vbmeta)@) && avb_flags(
                final(vbmeta)@,
            ) == avb_flags(old(vbmeta)@) | 3 && same_outside(old(vbmeta)@, final(vbmeta)@, 120, 4),
        },
{
    if vbmeta.len() < 256 || vbmeta[0] != 0x41 || vbmeta[1] != 0x56 || vbmeta[2] != 0x42 || vbmeta[3]
        != 0x30 {
        return Err(Error::NotVbmeta);
    }
    let flags: u32 = get_be32(vbmeta, AVB_FLAGS_OFFSET);
    if flags & AVB_FLAGS_DISABLED == AVB_FLAGS_DISABLED {
        return Ok(false);
    }
    put_be32(vbmeta, AVB_FLAGS_OFFSET, flags | AVB_FLAGS_DISABLED);
    Ok(true)
}

/// Disabling verification lasts: an image whose flags were set so is a vbmeta
/// image with verification disabled.
pub proof fn disabling_lasts(before: Seq<u8>, after: Seq<u8>)
    requires
        is_vbmeta(before),
        avb_flags(after) == avb_flags(before) | 3,
        same_outside(before, after, 120, 4),
    ensures
        is_vbmeta(after),
        is_disabled(after),
{
    let f: u32 = avb_flags(before);
    assert((f | 3) & 3 == 3) by (bit_vector);
    assert(after[0] == before[0] && after[1] == before[1] && after[2] == before[2] && after[3]
        == before[3]);
}

/// A partition name without its slot suffix.
pub open spec fn without_slot(name: Seq<char>) -> Seq<char> {
    if has_suffix(name, "_a"@) || has_suffix(name, "_b"@) {
        name.take(name.len() - 2)
    } else {
        name
    }
}

/// Partition name without its slot suffix (`system_a` -> `system`).
pub fn strip_slot(name: &str) -> (r: String)
    ensures
        r@ == without_slot(name@),
{
    proof {
        reveal_strlit("_a");
        reveal_strlit("_b");
    }
    let chars: Vec<char> = chars_of(name);
    let a: Vec<char> = chars_of("_a");
    let b: Vec<char> = chars_of("_b");
    if ends(&chars, &a) || ends(&chars, &b) {
        let front: &[char] = vstd::slice::slice_subrange(chars.as_slice(), 0, chars.len() - 2);
        assert(front@ =~= name@.take(name@.len() - 2));
        string_of(front)
    } else {
        string_of(&chars)
    }
}

/// The size that a list of sizes has for a name; the last one counts.
pub open spec fn size_for(sizes: Seq<(String, u64)>, name: Seq<char>, n: int) -> Option<u64>
    decreases n,
{
    if n <= 0 {
        None
    } else if sizes[n - 1].0@ == name {
        Some(sizes[n - 1].1)
    } else {
        size_for(sizes, name, n - 1)
    }
}

/// The size that a list of sizes has for a name; the last one counts.
pub fn find_size(sizes: &Vec<(String, u64)>, name: &str) -> (r: Option<u64>)
    ensures
        r == size_for(sizes@, name@, sizes@.len() as int),
{
    let mut i: usize = sizes.len();
    while i > 0
        invariant
            i <= sizes@.len(),
            size_for(sizes@, name@, i as int) == size_for(sizes@, name@, sizes@.len() as int),
        decreases i,
    {
        if same_text(sizes[i - 1].0.as_str(), name) {
            return Some(sizes[i - 1].1);
        }
        i -= 1;
    }
    None
}

/// A partition group from `super_empty.img`: name, maximum size (0 = no
/// limit) and its partitions.
#[derive(Debug, Clone, PartialEq, Eq)]
pub struct Group {
    pub name: String,
    pub max_size: u64,
    pub partitions: Vec<String>,
}

/// Bytes that the first `n` partitions of a group take.
pub open spec fn group_total(partitions: Seq<String>, sizes: Seq<(String, u64)>, n: int) -> int
    decreases n,
{
    if n <= 0 {
        0
    } else {
        group_total(partitions, sizes, n - 1) + match size_for(
            sizes,
            without_slot(partitions[n - 1]@),
            sizes.len() as int,
        ) {
            Some(b) => b as int,
            None => 0,
        }
    }
}

/// The partitions of a group fit its maximum size.
pub open spec fn group_fits(g: Group, sizes: Seq<(String, u64)>) -> bool {
    g.max_size == 0 || group_total(g.partitions@, sizes, g.partitions@.len() as int) <= g.max_size
}

/// Checks that the partitions of every group fit its maximum size.
/// `sizes` holds the image size of each partition, by name without slot.
pub fn check_groups(groups: &[Group], sizes: &Vec<(String, u64)>) -> (r: Result<(), Error>)
    ensures
        match r {
            Ok(_) => forall|i: int|
                0 <= i < groups@.len() ==> group_fits(#[trigger] groups@[i], sizes@),
            Err(e) => e == Error::GroupFull && exists|i: int|
                0 <= i < groups@.len() && !group_fits(#[trigger] groups@[i], sizes@),
        },
{
    let mut i: usize = 0;
    while i < groups.len()
        invariant
            i <= groups@.len(),
            forall|k: int| 0 <= k < i ==> group_fits(#[trigger] groups@[k], sizes@),
        decreases groups.len() - i,
    {
        let g: &Group = &groups[i];
        let mut total: u128 = 0;
        let mut k: usize = 0;
        while k < g.partitions.len()
            invariant
                k <= g.partitions@.len(),
                total == group_total(g.partitions@, sizes@, k as int),
                total <= k * 0x1_0000_0000_0000_0000,
            decreases g.partitions.len() - k,
        {
            let name: String = strip_slot(g.partitions[k].as_str());
            if let Some(b) = find_size(sizes, name.as_str()) {
                total = total + b as u128;
            }
            k += 1;
        }
        if g.max_size > 0 && total > g.max_size as u128 {
            assert(!group_fits(groups@[i as int], sizes@));
            return Err(Error::GroupFull);
        }
        i += 1;
    }
    Ok(())
}

pub const LP_GEOMETRY_MAGIC: u32 = 0x616c_4467;

pub const LP_HEADER_MAGIC: u32 = 0x414c_5030;

pub const LP_METADATA_GEOMETRY_SIZE: usize = 4096;

/// A table of the metadata: where it starts, how many entries it has and how
/// long they are.
pub struct Table {
    pub off: int,
    pub n: int,
    pub size: int,
}

/// The header of a `super_empty.img`.
pub open spec fn header_of(image: Seq<u8>) -> Seq<u8> {
    image.skip(4096)
}

/// The tables of a `super_empty.img`.
pub open spec fn tables_of(image: Seq<u8>) -> Seq<u8> {
    header_of(image).skip(le32(header_of(image), 8))
}

/// Table `i`: partitions, extents, groups, block devices.
pub open spec fn table_of(image: Seq<u8>, i: int) -> Table {
    let h = header_of(image);
    let d = 80 + i * 12;
    Table { off: le32(h, d), n: le32(h, d + 4), size: le32(h, d + 8) }
}

/// Entry `k` of a table.
pub open spec fn entry_of(image: Seq<u8>, t: Table, k: int) -> Seq<u8> {
    tables_of(image).subrange(t.off + k * t.size, t.off + k * t.size + t.size)
}

/// A table has all of its entries, and they hold `least` bytes.
pub open spec fn table_holds(image: Seq<u8>, t: Table, least: int) -> bool {
    t.n == 0 || (t.off + t.n * t.size <= tables_of(image).len() && least <= t.size)
}

/// The name in the front of an entry.
pub open spec fn entry_name(e: Seq<u8>) -> Seq<char> {
    text_of(until_nul(e.take(36), 0))
}

/// The group of partition `k`.
pub open spec fn partition_group(image: Seq<u8>, k: int) -> int {
    le32(entry_of(image, table_of(image, 0), k), 48)
}

/// What keeps the groups of a `super_empty.img` from being read.
pub open spec fn super_fault(image: Seq<u8>) -> Option<Error> {
    if image.len() < 64 || le32(image, 0) != LP_GEOMETRY_MAGIC {
        Some(Error::NoGeometry)
    } else if image.len() < 4096 {
        Some(Error::NoMetadata)
    } else if header_of(image).len() < 128 || le32(header_of(image), 0) != LP_HEADER_MAGIC {
        Some(Error::NoHeader)
    } else if le32(header_of(image), 8) > header_of(image).len() {
        Some(Error::TruncatedMetadata)
    } else if !table_holds(image, table_of(image, 2), 48) {
        Some(Error::TruncatedTable)
    } else if !table_holds(image, table_of(image, 0), 52) {
        Some(Error::TruncatedTable)
    } else if exists|k: int|
        0 <= k < table_of(image, 0).n && #[trigger] partition_group(image, k) >= table_of(
            image,
            2,
        ).n {
        Some(Error::BadGroupIndex)
    } else {
        None
    }
}

/// The names of those of the first `n` partitions that are in group `g`.
pub open spec fn members(image: Seq<u8>, g: int, n: int) -> Seq<Seq<char>>
    decreases n,
{
    if n <= 0 {
        Seq::empty()
    } else if partition_group(image, n - 1) == g {
        members(image, g, n - 1).push(entry_name(entry_of(image, table_of(image, 0), n - 1)))
    } else {
        members(image, g, n - 1)
    }
}

pub open spec fn names_view(v: Seq<String>) -> Seq<Seq<char>> {
    Seq::new(v.len(), |i: int| v[i]@)
}

/// A group is group `i` of the image, with those of the first `n` partitions
/// that are in it.
pub open spec fn is_group(image: Seq<u8>, g: Group, i: int, n: int) -> bool {
    let e = entry_of(image, table_of(image, 2), i);
    &&& g.name@ == entry_name(e)
    &&& g.max_size == le64(e, 40)
    &&& names_view(g.partitions@) == members(image, i, n)
}

/// Reads the descriptor of table `i`.
fn read_table(image: &[u8], i: usize) -> (r: (u64, u64, u64))
    requires
        image.len() >= 4096 + 128,
        i <= 2,
    ensures
        ({
            let t = table_of(image@, i as int);
            r.0 == t.off && r.1 == t.n && r.2 == t.size
        }),
        r.0 <= u32::MAX,
        r.1 <= u32::MAX,
        r.2 <= u32::MAX,
{
    let d: usize = 4096 + 80 + i * 12;
    let ghost h = header_of(image@);
    assert(forall|k: int| 0 <= k < 128 ==> #[trigger] h[k] == image@[4096 + k]);
    (get32(image, d) as u64, get32(image, d + 4) as u64, get32(image, d + 8) as u64)
}

/// Whether a table has all of its entries, and they hold `least` bytes.
fn holds(total: u64, t: (u64, u64, u64), least: u64) -> (r: bool)
    requires
        t.0 <= u32::MAX,
        t.1 <= u32::MAX,
        t.2 <= u32::MAX,
    ensures
        r == (t.1 == 0 || (t.0 + t.1 * t.2 <= total && least <= t.2)),
{
    let n: u64 = t.1;
    let size: u64 = t.2;
    assert(n * size <= 0xFFFF_FFFE_0000_0001) by (nonlinear_arith)
        requires
            n <= 0xFFFF_FFFF,
            size <= 0xFFFF_FFFF,
    ;
    n == 0 || (t.0 <= total && n * size <= total - t.0 && least <= size)
}

/// Entry `k` of a table.
fn read_entry(image: &[u8], base: usize, t: (u64, u64, u64), k: u64) -> (r: Vec<u8>)
    requires
        image.len() >= 4096,
        base == 4096 + le32(header_of(image@), 8),
        base <= image.len(),
        k < t.1,
        t.0 + t.1 * t.2 <= image.len() - base,
        t.0 <= u32::MAX,
        t.1 <= u32::MAX,
        t.2 <= u32::MAX,
    ensures
        r@ == entry_of(image@, Table { off: t.0 as int, n: t.1 as int, size: t.2 as int }, k as int),
        r@.len() == t.2,
{
    let size: u64 = t.2;
    let n: u64 = t.1;
    assert(k * size + size <= n * size) by (nonlinear_arith)
        requires
            k + 1 <= n,
    ;
    assert(0 <= k * size) by (nonlinear_arith);
    let from: usize = base + (t.0 + k * size) as usize;
    let b: Vec<u8> = copy_range(image, from, from + size as usize);
    let ghost t1 = Table { off: t.0 as int, n: t.1 as int, size: t.2 as int };
    assert(tables_of(image@) =~= image@.skip(base as int));
    assert(b@ =~= entry_of(image@, t1, k as int));
    b
}

fn name_in(e: &Vec<u8>) -> (r: String)
    requires
        e.len() >= 36,
    ensures
        r@ == entry_name(e@),
{
    let front: &[u8] = vstd::slice::slice_subrange(e.as_slice(), 0, 36);
    assert(front@ =~= e@.take(36));
    cstr(front)
}

/// The groups without their partitions.
fn read_groups(image: &[u8], base: usize, t: (u64, u64, u64)) -> (r: Vec<Group>)
    requires
        image.len() >= 4096,
        base == 4096 + le32(header_of(image@), 8),
        base <= image.len(),
        ({
            let s = table_of(image@, 2);
            t.0 == s.off && t.1 == s.n && t.2 == s.size
        }),
        t.0 <= u32::MAX,
        t.1 <= u32::MAX,
        t.2 <= u32::MAX,
        t.1 == 0 || (t.0 + t.1 * t.2 <= image.len() - base && 48 <= t.2),
    ensures
        r@.len() == t.1,
        forall|i: int| 0 <= i < r@.len() ==> is_group(image@, #[trigger] r@[i], i, 0),
{
    let mut v: Vec<Group> = Vec::new();
    let mut i: u64 = 0;
    while i < t.1
        invariant
            image.len() >= 4096,
            base == 4096 + le32(header_of(image@), 8),
            base <= image.len(),
            ({
                let s = table_of(image@, 2);
                t.0 == s.off && t.1 == s.n && t.2 == s.size
            }),
            t.0 <= u32::MAX,
            t.1 <= u32::MAX,
            t.2 <= u32::MAX,
            t.1 == 0 || (t.0 + t.1 * t.2 <= image.len() - base && 48 <= t.2),
            i <= t.1,
            v@.len() == i,
            forall|k: int| 0 <= k < i ==> is_group(image@, #[trigger] v@[k], k, 0),
        decreases t.1 - i,
    {
        let e: Vec<u8> = read_entry(image, base, t, i);
        let g: Group = Group {
            name: name_in(&e),
            max_size: get64(&e, 40),
            partitions: Vec::new(),
        };
        assert(names_view(g.partitions@) =~= Seq::<Seq<char>>::empty());
        v.push(g);
        i += 1;
    }
    v
}

/// Adds partition `k` to its group.
fn add_partition(groups: &mut Vec<Group>, g: usize, name: String)
    requires
        g < old(groups).len(),
    ensures
        final(groups)@.len() == old(groups)@.len(),
        forall|i: int|
            0 <= i < final(groups)@.len() ==> (#[trigger] final(groups)@[i]).name@ == old(
                groups,
            )@[i].name@ && final(groups)@[i].max_size == old(groups)@[i].max_size && names_view(
                final(groups)@[i].partitions@,
            ) == (if i == g {
                names_view(old(groups)@[i].partitions@).push(name@)
            } else {
                names_view(old(groups)@[i].partitions@)
            }),
{
    let ghost was = groups@[g as int].partitions@;
    groups[g].partitions.push(name);
    assert(names_view(groups@[g as int].partitions@) =~= names_view(was).push(name@));
}

/// Partition groups of a `super_empty.img` (liblp metadata: geometry, then
/// the metadata). Names carry the slot suffix on A/B devices
/// (`system_a`, `google_dynamic_partitions_a`).
pub fn super_groups(image: &[u8]) -> (r: Result<Vec<Group>, Error>)
    ensures
        match r {
            Ok(v) => {
                &&& super_fault(image@) is None
                &&& v@.len() == table_of(image@, 2).n
                &&& forall|i: int|
                    0 <= i < v@.len() ==> is_group(
                        image@,
                        #[trigger] v@[i],
                        i,
                        table_of(image@, 0).n,
                    )
            },
            Err(e) => super_fault(image@) == Some(e),
        },
{
    if image.len() < 64 || get32(image, 0) != LP_GEOMETRY_MAGIC {
        return Err(Error::NoGeometry);
    }
    if image.len() < LP_METADATA_GEOMETRY_SIZE {
        return Err(Error::NoMetadata);
    }
    let ghost h = header_of(image@);
    let left: usize = image.len() - LP_METADATA_GEOMETRY_SIZE;
    if left < 128 {
        return Err(Error::NoHeader);
    }
    assert(forall|k: int| 0 <= k < 128 ==> #[trigger] h[k] == image@[4096 + k]);
    if get32(image, 4096) != LP_HEADER_MAGIC {
        return Err(Error::NoHeader);
    }
    let header_size: usize = get32(image, 4096 + 8) as usize;
    if header_size > left {
        return Err(Error::TruncatedMetadata);
    }
    let base: usize = 4096 + header_size;
    let total: u64 = (image.len() - base) as u64;
    let gt: (u64, u64, u64) = read_table(image, 2);
    let pt: (u64, u64, u64) = read_table(image, 0);
    if !holds(total, gt, 48) {
        return Err(Error::TruncatedTable);
    }
    let mut groups: Vec<Group> = read_groups(image, base, gt);
    if !holds(total, pt, 52) {
        return Err(Error::TruncatedTable);
    }
    let ghost t = table_of(image@, 0);
    let mut k: u64 = 0;
    while k < pt.1
        invariant
            image.len() >= 4096,
            base == 4096 + le32(header_of(image@), 8),
            base <= image.len(),
            t == table_of(image@, 0),
            pt.0 == t.off && pt.1 == t.n && pt.2 == t.size,
            pt.0 <= u32::MAX,
            pt.1 <= u32::MAX,
            pt.2 <= u32::MAX,
            pt.1 == 0 || (pt.0 + pt.1 * pt.2 <= image.len() - base && 52 <= pt.2),
            k <= pt.1,
            groups@.len() == table_of(image@, 2).n,
            forall|i: int|
                0 <= i < groups@.len() ==> is_group(image@, #[trigger] groups@[i], i, k as int),
            forall|j: int|
                0 <= j < k ==> #[trigger] partition_group(image@, j) < table_of(image@, 2).n,
            super_fault(image@) == (if exists|j: int|
                0 <= j < t.n && #[trigger] partition_group(image@, j) >= table_of(image@, 2).n {
                Some(Error::BadGroupIndex)
            } else {
                None
            }),
        decreases pt.1 - k,
    {
        let e: Vec<u8> = read_entry(image, base, pt, k);
        let g: usize = get32(&e, 48) as usize;
        assert(partition_group(image@, k as int) == g);
        if g >= groups.len() {
            return Err(Error::BadGroupIndex);
        }
        let ghost was = groups@;
        add_partition(&mut groups, g, name_in(&e));
        assert forall|i: int| 0 <= i < groups@.len() implies is_group(
            image@,
            #[trigger] groups@[i],
            i,
            k + 1,
        ) by {
            assert(is_group(image@, was[i], i, k as int));
        }
        k += 1;
    }
    Ok(groups)
}

} // verus!
