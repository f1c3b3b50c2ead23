//! What is read of an EROFS image.
use vstd::prelude::*;
use crate::bytes::{ceil_div, le16, le32, le64};
use crate::error::Error;
use crate::fs::erofs::{address, after_inode, block_size, bytes_from, chunk_unit, chunks_from,
    data_of, entries_from, inode_in, name_end, piece_bytes, pieces_of, xattr_name, InodeView,
    PieceView};
use crate::text::text_of;

verus! {

/// Bytes of the first `n` pieces.
pub open spec fn bytes_before(x: Seq<PieceView>, n: int) -> int
    decreases n,
{
    if n <= 0 {
        0
    } else {
        bytes_before(x, n - 1) + x[n - 1].len
    }
}

proof fn lemma_pieces(image: Seq<u8>, x: Seq<PieceView>, i: int)
    requires
        0 <= i <= x.len(),
        forall|j: int| 0 <= j < x.len() ==> (#[trigger] x[j]).len >= 0,
        forall|j: int|
            0 <= j < x.len() && (#[trigger] x[j]).physical is Some ==> x[j].physical->Some_0 >= 0,
        bytes_from(image, x, i) is Ok,
    ensures
        ({
            let d = bytes_from(image, x, i)->Ok_0;
            &&& d.len() == bytes_before(x, x.len() as int) - bytes_before(x, i)
            &&& forall|j: int, q: int|
                #![trigger x[j], d[q]]
                i <= j < x.len() && bytes_before(x, j) <= q + bytes_before(x, i) < bytes_before(
                    x, j)
                    + x[j].len ==> d[q] == match x[j].physical {
                    Some(at) => image[at + (q + bytes_before(x, i) - bytes_before(x, j))],
                    None => 0,
                }
        }),
    decreases x.len() - i,
{
    if i < x.len() {
        lemma_pieces(image, x, i + 1);
        let b = piece_bytes(image, x[i])->Ok_0;
        let rest = bytes_from(image, x, i + 1)->Ok_0;
        let d = bytes_from(image, x, i)->Ok_0;
        assert(d == b + rest);
        assert(b.len() == x[i].len);
        assert forall|j: int, q: int|
            #![trigger x[j], d[q]]
            i <= j < x.len() && bytes_before(x, j) <= q + bytes_before(x, i) < bytes_before(x, j)
                + x[j].len implies d[q] == match x[j].physical {
            Some(at) => image[at + (q + bytes_before(x, i) - bytes_before(x, j))],
            None => 0,
        } by {
            if j == i {
                assert(d[q] == b[q]);
            } else {
                lemma_before(x, i + 1, j);
                lemma_before(x, j + 1, x.len() as int);
                assert(bytes_before(x, j + 1) == bytes_before(x, j) + x[j].len);
                assert(d[q] == rest[q - b.len()]);
            }
        }
    }
}

proof fn lemma_before(x: Seq<PieceView>, i: int, j: int)
    requires
        0 <= i <= j <= x.len(),
        forall|k: int| 0 <= k < x.len() ==> (#[trigger] x[k]).len >= 0,
    ensures
        bytes_before(x, i) <= bytes_before(x, j),
    decreases j - i,
{
    if i < j {
        lemma_before(x, i, j - 1);
    }
}

/// The content of a file is its pieces one behind the other. A byte of a piece
/// is the byte of the image where the piece is, or zero in a hole.
pub proof fn files_are_made_of_pieces(image: Seq<u8>, x: Seq<PieceView>, j: int, q: int)
    requires
        forall|k: int| 0 <= k < x.len() ==> (#[trigger] x[k]).len >= 0,
        forall|k: int|
            0 <= k < x.len() && (#[trigger] x[k]).physical is Some ==> x[k].physical->Some_0 >= 0,
        bytes_from(image, x, 0) is Ok,
        0 <= j < x.len(),
        0 <= q < x[j].len,
    ensures
        ({
            let d = bytes_from(image, x, 0)->Ok_0;
            &&& d.len() == bytes_before(x, x.len() as int)
            &&& 0 <= bytes_before(x, j) + q < d.len()
            &&& d[bytes_before(x, j) + q] == match x[j].physical {
                Some(at) => image[at + q],
                None => 0,
            }
        }),
{
    lemma_pieces(image, x, 0);
    lemma_before(x, 0, j);
    lemma_before(x, j + 1, x.len() as int);
    let d = bytes_from(image, x, 0)->Ok_0;
    let at = bytes_before(x, j) + q;
    assert(d[at] == d[at]);
}

/// A file in blocks that follow each other is one piece at its first block. With
/// an inline tail the last part stands behind the inode, and before it are
/// whole blocks.
pub proof fn flat_files_have_pieces(image: Seq<u8>, inode: InodeView)
    requires
        block_size(image) > 0,
        inode.size > 0,
        inode.u != u32::MAX,
    ensures
        ({
            let bs = block_size(image);
            let at = after_inode(image, inode);
            let tail = if inode.size % bs == 0 {
                bs
            } else {
                inode.size % bs
            };
            &&& inode.layout == 0 ==> pieces_of(image, inode) == Ok::<Seq<PieceView>, Error>(
                seq![PieceView { physical: Some(inode.u * bs), len: inode.size }],
            )
            &&& inode.layout == 2 && at % bs + tail > bs ==> pieces_of(image, inode) == Err::<
                Seq<PieceView>,
                Error,
            >(Error::TailCrossesBlock)
            &&& inode.layout == 2 && at % bs + tail <= bs ==> {
                let x = pieces_of(image, inode)->Ok_0;
                &&& pieces_of(image, inode) is Ok
                &&& x.last() == (PieceView { physical: Some(at), len: tail })
                &&& inode.size == tail ==> x.len() == 1
                &&& inode.size > tail ==> x.len() == 2 && x[0] == (PieceView {
                    physical: Some(inode.u * bs),
                    len: inode.size - tail,
                })
            }
            &&& inode.layout == 1 || inode.layout == 3 ==> data_of(image, inode) == Err::<
                Seq<u8>,
                Error,
            >(Error::Compressed)
        }),
{
    let bs = block_size(image);
    let n = inode.size;
    let tail = if n % bs == 0 {
        bs
    } else {
        n % bs
    };
    let c = ceil_div(n, bs);
    assert((c - 1) * bs == n - tail && 0 < tail <= n) by (nonlinear_arith)
        requires
            c == (n + bs - 1) / bs,
            tail == (if n % bs == 0 {
                bs
            } else {
                n % bs
            }),
            bs > 0,
            n > 0,
    ;
    if inode.layout == 0 {
        assert(pieces_of(image, inode)->Ok_0 =~= seq![
            PieceView { physical: Some(inode.u * bs), len: n },
        ]);
    }
}

proof fn lemma_chunks(
    table: Seq<u8>,
    unit: int,
    size: int,
    chunk: int,
    bs: int,
    i: int,
    n: int,
)
    requires
        0 <= i <= n,
        unit == 4 || unit == 8,
        chunks_from(table, unit, size, chunk, bs, i, n) is Ok,
    ensures
        ({
            let x = chunks_from(table, unit, size, chunk, bs, i, n)->Ok_0;
            &&& x.len() == n - i
            &&& forall|k: int|
                i <= k < n ==> #[trigger] x[k - i] == (PieceView {
                    physical: address(
                        if unit == 8 {
                            le32(table, 8 * k + 4)
                        } else {
                            le32(table, 4 * k)
                        },
                        bs,
                    ),
                    len: if chunk < size - k * chunk {
                        chunk
                    } else {
                        size - k * chunk
                    },
                })
        }),
    decreases n - i,
{
    if i < n {
        lemma_chunks(table, unit, size, chunk, bs, i + 1, n);
        let x = chunks_from(table, unit, size, chunk, bs, i, n)->Ok_0;
        let rest = chunks_from(table, unit, size, chunk, bs, i + 1, n)->Ok_0;
        assert forall|k: int| i <= k < n implies #[trigger] x[k - i] == (PieceView {
            physical: address(
                if unit == 8 {
                    le32(table, 8 * k + 4)
                } else {
                    le32(table, 4 * k)
                },
                bs,
            ),
            len: if chunk < size - k * chunk {
                chunk
            } else {
                size - k * chunk
            },
        }) by {
            if k > i {
                assert(x[k - i] == rest[k - (i + 1)]);
            }
        }
    }
}

/// A file in chunks has a piece for each entry of its table: at the block that
/// the entry names, or a hole where it names none, and as long as a chunk but
/// for the last.
pub proof fn chunks_are_read(
    table: Seq<u8>,
    unit: int,
    size: int,
    chunk: int,
    bs: int,
    n: int,
    k: int,
)
    requires
        unit == 4 || unit == 8,
        0 <= k < n,
        chunk > 0,
        chunks_from(table, unit, size, chunk, bs, 0, n) is Ok,
    ensures
        ({
            let x = chunks_from(table, unit, size, chunk, bs, 0, n)->Ok_0;
            let addr = if unit == 8 {
                le32(table, 8 * k + 4)
            } else {
                le32(table, 4 * k)
            };
            &&& x.len() == n
            &&& addr == 0xFFFF_FFFF ==> x[k].physical is None
            &&& addr != 0xFFFF_FFFF ==> x[k].physical == Some(addr * bs)
            &&& (k + 1) * chunk <= size ==> x[k].len == chunk
            &&& k * chunk <= size < (k + 1) * chunk ==> x[k].len == size - k * chunk
        }),
        chunk_unit(32) == 8 && chunk_unit(0) == 4,
{
    lemma_chunks(table, unit, size, chunk, bs, 0, n);
    let x = chunks_from(table, unit, size, chunk, bs, 0, n)->Ok_0;
    assert(x[k - 0] == x[k]);
    assert((k + 1) * chunk == k * chunk + chunk) by (nonlinear_arith);
}

/// The fields of an inode in its short and in its long form.
pub proof fn inodes_are_read(image: Seq<u8>, nid: int, b: Seq<u8>)
    requires
        b.len() >= 64,
    ensures
        ({
            let i = inode_in(image, nid, b);
            let n = le16(b, 2);
            let long = le16(b, 0) % 2 == 1;
            &&& i.nid == nid
            &&& i.layout == le16(b, 0) / 2 % 8
            &&& i.isize == if long {
                64int
            } else {
                32
            }
            &&& n == 0 ==> i.xattr_isize == 0
            &&& n > 0 ==> i.xattr_isize == 4 * n + 8
            &&& i.mode == le16(b, 4)
            &&& i.u == le32(b, 16)
            &&& long ==> i.size == le64(b, 8) && i.uid == le32(b, 24) && i.gid == le32(b, 28)
            &&& !long ==> i.size == le32(b, 8) && i.uid == le16(b, 24) && i.gid == le16(b, 26)
        }),
{
}

/// The name of an attribute starts with the prefix of its index. From 128 on the
/// index is that of a long prefix of the image.
pub proof fn attributes_have_names(prefixes: Seq<(u8, Seq<u8>)>, index: int, name: Seq<u8>)
    requires
        0 <= index < 256,
    ensures
        xattr_name(prefixes, 1, name) == Some("user."@ + text_of(name)),
        xattr_name(prefixes, 4, name) == Some("trusted."@ + text_of(name)),
        xattr_name(prefixes, 6, name) == Some("security."@ + text_of(name)),
        7 <= index < 128 ==> xattr_name(prefixes, index, name) is None,
        128 <= index && index - 128 >= prefixes.len() ==> xattr_name(prefixes, index, name) is None,
        128 <= index && index - 128 < prefixes.len() && prefixes[index - 128].0 == 6 ==> xattr_name(
            prefixes,
            index,
            name,
        ) == Some("security."@ + text_of(prefixes[index - 128].1) + text_of(name)),
{
}

/// The entries of a block of a directory have the names between the places that
/// they and the next ones say; `.` and `..` are left out.
pub proof fn entries_are_read(block: Seq<u8>, count: int, i: int)
    requires
        0 <= i < count,
        0 <= le16(block, 12 * i + 8) <= name_end(block, count, i) <= block.len(),
        entries_from(block, count, i + 1) is Ok,
    ensures
        ({
            let name = block.subrange(le16(block, 12 * i + 8), name_end(block, count, i));
            let rest = entries_from(block, count, i + 1)->Ok_0;
            entries_from(block, count, i) == Ok::<Seq<(Seq<u8>, u64)>, Error>(
                if name == seq![0x2eu8] || name == seq![0x2eu8, 0x2eu8] {
                    rest
                } else {
                    seq![(name, le64(block, 12 * i) as u64)] + rest
                },
            )
        }),
        i + 1 < count ==> name_end(block, count, i) == le16(block, 12 * (i + 1) + 8),
{
    let rest = entries_from(block, count, i + 1)->Ok_0;
    assert(Seq::<(Seq<u8>, u64)>::empty() + rest =~= rest);
}

} // verus!
