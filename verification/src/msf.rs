//! The MSF block-filesystem layer: superblock validation, stream directory
//! decoding through its indirection blocks, and block-addressed random
//! access to one stream's logical byte range.

use crate::util::{le32_at, Source};
use vstd::prelude::*;

verus! {

/// Everything that can go wrong in the MSF layer.
#[derive(Debug, PartialEq, Eq)]
pub enum Error {
    Unknown,
    /// A field could not be read: the source ended before it.
    Consume,
    NotPDBFile,
    InvalidBlockSize(u32),
    /// A seek on the underlying source failed.
    Seek,
    StreamDirectoryTooSmall,
    StreamNumberOutOfBounds,
    BlockNumberOutOfBounds,
    /// A read or an absolute seek went past the stream's addressable end.
    UnexpectedEndOfStream,
    /// Only absolute seeks are supported.
    Unsupported,
}

/// The 32-byte signature every MSF 7.00 file starts with.
pub open spec fn magic_seq() -> Seq<u8> {
    seq![
        0x4Du8, 0x69u8, 0x63u8, 0x72u8, 0x6Fu8, 0x73u8, 0x6Fu8, 0x66u8, 0x74u8, 0x20u8, 0x43u8,
        0x2Fu8, 0x43u8, 0x2Bu8, 0x2Bu8, 0x20u8, 0x4Du8, 0x53u8, 0x46u8, 0x20u8, 0x37u8, 0x2Eu8,
        0x30u8, 0x30u8, 0x0Du8, 0x0Au8, 0x1Au8, 0x44u8, 0x53u8, 0x00u8, 0x00u8, 0x00u8,
    ]
}

/// The signature as an executable value.
pub fn magic_bytes() -> (v: Vec<u8>)
    ensures
        v@ =~= magic_seq(),
{
    let mut v: Vec<u8> = Vec::new();
    v.push(0x4D);
    v.push(0x69);
    v.push(0x63);
    v.push(0x72);
    v.push(0x6F);
    v.push(0x73);
    v.push(0x6F);
    v.push(0x66);
    v.push(0x74);
    v.push(0x20);
    v.push(0x43);
    v.push(0x2F);
    v.push(0x43);
    v.push(0x2B);
    v.push(0x2B);
    v.push(0x20);
    v.push(0x4D);
    v.push(0x53);
    v.push(0x46);
    v.push(0x20);
    v.push(0x37);
    v.push(0x2E);
    v.push(0x30);
    v.push(0x30);
    v.push(0x0D);
    v.push(0x0A);
    v.push(0x1A);
    v.push(0x44);
    v.push(0x53);
    v.push(0x00);
    v.push(0x00);
    v.push(0x00);
    v
}

/// Valid MSF block sizes.
pub open spec fn valid_block_size(bs: u32) -> bool {
    bs == 512 || bs == 1024 || bs == 2048 || bs == 4096
}

/// `x / b` rounded towards positive infinity.
pub open spec fn ceil_div(x: int, b: int) -> int {
    (x + b - 1) / b
}

/// How many 4-byte fields one block holds.
pub open spec fn words_per_block(bs: u32) -> int {
    bs as int / 4
}

/// How the decoded superblock's fields relate to the file bytes at `p`.
pub open spec fn sb_matches(sb: SuperBlock, d: Seq<u8>, p: int) -> bool {
    &&& sb.file_magic@ == magic_seq()
    &&& sb.block_size == le32_at(d, p + 32)
    &&& sb.free_block_map == le32_at(d, p + 36)
    &&& sb.num_blocks == le32_at(d, p + 40)
    &&& sb.num_directory_bytes == le32_at(d, p + 44)
    &&& sb.unknown == le32_at(d, p + 48)
    &&& sb.block_map_addr == le32_at(d, p + 52)
}

/// When the superblock at `p` decodes without error.
pub open spec fn sb_load_ok(d: Seq<u8>, p: int) -> bool {
    &&& p + 56 <= d.len()
    &&& d.subrange(p, p + 32) == magic_seq()
    &&& valid_block_size(le32_at(d, p + 32) as u32)
}

/// The error the superblock decoder reports when `!sb_load_ok(d, p)`.
pub open spec fn sb_load_err(d: Seq<u8>, p: int) -> Error {
    if p + 32 > d.len() {
        Error::Consume
    } else if d.subrange(p, p + 32) != magic_seq() {
        Error::NotPDBFile
    } else if p + 36 > d.len() {
        Error::Consume
    } else if !valid_block_size(le32_at(d, p + 32) as u32) {
        Error::InvalidBlockSize(le32_at(d, p + 32) as u32)
    } else {
        Error::Consume
    }
}

/// First 32 + 24 bytes of the file: signature and geometry.
pub struct SuperBlock {
    pub file_magic: Vec<u8>,
    pub block_size: u32,
    pub free_block_map: u32,
    pub num_blocks: u32,
    pub num_directory_bytes: u32,
    pub unknown: u32,
    pub block_map_addr: u32,
}

impl SuperBlock {
    /// Decodes and validates the superblock at the source's current position.
    ///
    /// On a signature mismatch the cursor stands right after the 32
    /// signature bytes: no later field has been read.
    pub fn load(src: &mut Source) -> (r: Result<SuperBlock, Error>)
        ensures
            final(src).data@ == old(src).data@,
            ({
                let d = old(src).data@;
                let p = old(src).pos as int;
                if sb_load_ok(d, p) {
                    &&& r matches Ok(sb)
                    &&& sb_matches(sb, d, p)
                    &&& valid_block_size(sb.block_size)
                    &&& final(src).pos == p + 56
                } else {
                    &&& r == Err::<SuperBlock, Error>(sb_load_err(d, p))
                    &&& (p + 32 <= d.len() && d.subrange(p, p + 32) != magic_seq()
                        ==> final(src).pos == p + 32)
                }
            }),
    {
        let file_magic = match src.read_bytes(32) {
            Some(v) => v,
            None => {
                return Err(Error::Consume);
            },
        };
        let expected = magic_bytes();
        let mut i: usize = 0;
        while i < 32
            invariant
                i <= 32,
                file_magic@.len() == 32,
                expected@ == magic_seq(),
                forall|k: int| 0 <= k < i ==> file_magic@[k] == magic_seq()[k],
                src.data@ == old(src).data@,
                old(src).pos + 32 <= old(src).data@.len(),
                src.pos == old(src).pos + 32,
                file_magic@ == old(src).data@.subrange(
                    old(src).pos as int,
                    old(src).pos + 32,
                ),
            decreases 32 - i,
        {
            if file_magic[i] != expected[i] {
                return Err(Error::NotPDBFile);
            }
            i = i + 1;
        }
        assert(file_magic@ =~= magic_seq());
        let block_size = match src.read_u32() {
            Some(v) => v,
            None => {
                return Err(Error::Consume);
            },
        };
        if block_size != 512 && block_size != 1024 && block_size != 2048 && block_size != 4096 {
            return Err(Error::InvalidBlockSize(block_size));
        }
        let free_block_map = match src.read_u32() {
            Some(v) => v,
            None => {
                return Err(Error::Consume);
            },
        };
        let num_blocks = match src.read_u32() {
            Some(v) => v,
            None => {
                return Err(Error::Consume);
            },
        };
        let num_directory_bytes = match src.read_u32() {
            Some(v) => v,
            None => {
                return Err(Error::Consume);
            },
        };
        let unknown = match src.read_u32() {
            Some(v) => v,
            None => {
                return Err(Error::Consume);
            },
        };
        let block_map_addr = match src.read_u32() {
            Some(v) => v,
            None => {
                return Err(Error::Consume);
            },
        };
        Ok(
            SuperBlock {
                file_magic,
                block_size,
                free_block_map,
                num_blocks,
                num_directory_bytes,
                unknown,
                block_map_addr,
            },
        )
    }
}

/// How many indirection blocks hold the directory's own bytes.
pub open spec fn ind_count(ndb: u32, bs: u32) -> int {
    ceil_div(ndb as int, bs as int)
}

/// Byte offset of the indirection-block table itself.
pub open spec fn ind_map_pos(map_addr: u32, bs: u32) -> int {
    map_addr * bs
}

/// Whether the whole indirection-block table lies inside the file (an
/// empty table has nothing to read).
pub open spec fn ind_readable(d: Seq<u8>, map_addr: u32, bs: u32, ndb: u32) -> bool {
    ind_count(ndb, bs) == 0 || ind_map_pos(map_addr, bs) + 4 * ind_count(ndb, bs) <= d.len()
}

/// The `i`-th entry of the indirection-block table.
pub open spec fn ind_entry(d: Seq<u8>, map_addr: u32, bs: u32, i: int) -> int {
    le32_at(d, ind_map_pos(map_addr, bs) + 4 * i)
}

/// The indirection-block table as a sequence of block indices.
pub open spec fn ind_seq(d: Seq<u8>, map_addr: u32, bs: u32, ndb: u32) -> Seq<u32> {
    Seq::new(ind_count(ndb, bs) as nat, |i: int| ind_entry(d, map_addr, bs, i) as u32)
}

/// Physical byte offset of the directory's `j`-th 4-byte field: field `j`
/// lies in indirection block `j / (bs/4)`, at byte `4 * (j % (bs/4))`.
pub open spec fn dir_word_pos(ind: Seq<u32>, bs: u32, j: int) -> int {
    ind[j / words_per_block(bs)] * bs + 4 * (j % words_per_block(bs))
}

/// The directory's `j`-th 4-byte field, read through the indirection table.
pub open spec fn dir_word(d: Seq<u8>, ind: Seq<u32>, bs: u32, j: int) -> int {
    le32_at(d, dir_word_pos(ind, bs, j))
}

/// Whether the directory's `j`-th field can be read at all: its indirection
/// block exists and its four bytes lie inside the file.
pub open spec fn dir_word_avail(d: Seq<u8>, ind: Seq<u32>, bs: u32, j: int) -> bool {
    &&& 0 <= j
    &&& j / words_per_block(bs) < ind.len()
    &&& dir_word_pos(ind, bs, j) + 4 <= d.len()
}

/// How many blocks a stream of `size` bytes occupies.
pub open spec fn blocks_for(size: u32, bs: u32) -> int {
    ceil_div(size as int, bs as int)
}

/// Total blocks of the first `s` streams, with each stream's byte length
/// taken from directory field `1 + t`.
pub open spec fn dir_blocks_before(d: Seq<u8>, ind: Seq<u32>, bs: u32, s: int) -> int
    decreases s,
{
    if s <= 0 {
        0
    } else {
        dir_blocks_before(d, ind, bs, s - 1) + blocks_for(dir_word(d, ind, bs, s) as u32, bs)
    }
}

/// The directory's first field: the stream count.
pub open spec fn dir_num_streams(d: Seq<u8>, ind: Seq<u32>, bs: u32) -> int {
    dir_word(d, ind, bs, 0)
}

/// Every 4-byte field the directory decode reads: the stream count, one
/// byte length per stream, then every stream's block-index list.
pub open spec fn dir_total_words(d: Seq<u8>, ind: Seq<u32>, bs: u32) -> int {
    1 + dir_num_streams(d, ind, bs) + dir_blocks_before(d, ind, bs, dir_num_streams(d, ind, bs))
}

/// When the whole directory decode succeeds: the indirection table is
/// readable and every field it walks to is available.
pub open spec fn dir_decode_ok(d: Seq<u8>, map_addr: u32, bs: u32, ndb: u32) -> bool {
    &&& ind_readable(d, map_addr, bs, ndb)
    &&& ({
        let ind = ind_seq(d, map_addr, bs, ndb);
        forall|j: int|
            0 <= j < dir_total_words(d, ind, bs) ==> dir_word_avail(d, ind, bs, j)
    })
}

/// The first of the fields `[j0, total)` that is not available; `total`
/// when all are.
pub open spec fn dir_first_unavail(d: Seq<u8>, ind: Seq<u32>, bs: u32, j0: int, total: int) -> int
    decreases total - j0,
{
    if j0 >= total {
        total
    } else if !dir_word_avail(d, ind, bs, j0) {
        j0
    } else {
        dir_first_unavail(d, ind, bs, j0 + 1, total)
    }
}

/// The error the directory decoder reports when `!dir_decode_ok(..)`:
/// a short read while the indirection table or a field's bytes are
/// fetched, or an exhausted indirection table.
pub open spec fn dir_decode_err(d: Seq<u8>, map_addr: u32, bs: u32, ndb: u32) -> Error {
    let ind = ind_seq(d, map_addr, bs, ndb);
    if !ind_readable(d, map_addr, bs, ndb) {
        Error::Consume
    } else {
        let total = dir_total_words(d, ind, bs);
        let fb = dir_first_unavail(d, ind, bs, 0, total);
        if fb / words_per_block(bs) >= ind.len() {
            Error::StreamDirectoryTooSmall
        } else {
            Error::Consume
        }
    }
}

/// The least unavailable field is the one the walk stops at: when the
/// fields before `w0` are available and `w0` is not, the scan from any
/// earlier point lands on `w0`.
proof fn lemma_dir_first_unavail_is(
    d: Seq<u8>,
    ind: Seq<u32>,
    bs: u32,
    j0: int,
    w0: int,
    total: int,
)
    requires
        0 <= j0 <= w0 < total,
        forall|j: int| 0 <= j < w0 ==> dir_word_avail(d, ind, bs, j),
        !dir_word_avail(d, ind, bs, w0),
    ensures
        dir_first_unavail(d, ind, bs, j0, total) == w0,
    decreases w0 - j0,
{
    if j0 < w0 {
        lemma_dir_first_unavail_is(d, ind, bs, j0 + 1, w0, total);
    }
}

/// Boundary exactness of the walk: a directory of `total` fields reads
/// its data from exactly the first `ceil(4 * total / bs)` indirection
/// blocks, field `j` from block `j / (bs / 4)` and no other.
pub proof fn lemma_directory_spans_exact_blocks(bs: u32, total: int, j: int)
    requires
        valid_block_size(bs),
        0 <= j < total,
    ensures
        0 <= j / words_per_block(bs) < ceil_div(4 * total, bs as int),
{
    let w = words_per_block(bs);
    vstd::arithmetic::div_mod::lemma_fundamental_div_mod(j, w);
    vstd::arithmetic::div_mod::lemma_fundamental_div_mod(4 * total + bs - 1, bs as int);
    let q = j / w;
    let c = ceil_div(4 * total, bs as int);
    assert(4 * (q * w) == q * bs as int) by (nonlinear_arith)
        requires
            4 * w == bs,
    ;
    if q >= c {
        assert(c * bs as int >= 4 * total) by {
            assert(bs as int * c == 4 * total + bs - 1 - ((4 * total + bs - 1) % (bs as int)));
        };
        assert(q * bs as int >= c * bs as int) by (nonlinear_arith)
            requires
                q >= c,
                bs >= 1,
        ;
        assert(4 * j == q * bs as int + 4 * (j % w));
        assert(false);
    }
}

/// How the decoded directory's fields relate to the file bytes.
pub open spec fn sd_matches(sd: StreamDirectory, d: Seq<u8>, map_addr: u32, bs: u32, ndb: u32) -> bool {
    let ind = ind_seq(d, map_addr, bs, ndb);
    let ns = dir_num_streams(d, ind, bs);
    &&& sd.num_streams == ns
    &&& sd.stream_sizes@.len() == ns
    &&& (forall|t: int| 0 <= t < ns ==> sd.stream_sizes@[t] == dir_word(d, ind, bs, 1 + t))
    &&& sd.stream_blocks@.len() == ns
    &&& (forall|t: int|
        0 <= t < ns ==> (#[trigger] sd.stream_blocks@[t])@.len() == blocks_for(
            sd.stream_sizes@[t],
            bs,
        ))
    &&& (forall|t: int, k: int|
        0 <= t < ns && 0 <= k < sd.stream_blocks@[t]@.len() ==> #[trigger] sd.stream_blocks@[t]@[k]
            == dir_word(d, ind, bs, 1 + ns + dir_blocks_before(d, ind, bs, t) + k))
}

/// Sums of per-stream block counts are non-negative and grow with `s`.
pub proof fn lemma_dir_blocks_before_mono(d: Seq<u8>, ind: Seq<u32>, bs: u32, s1: int, s2: int)
    requires
        valid_block_size(bs),
        0 <= s1 <= s2,
    ensures
        0 <= dir_blocks_before(d, ind, bs, s1) <= dir_blocks_before(d, ind, bs, s2),
    decreases s2,
{
    if s2 > 0 {
        assert(blocks_for(dir_word(d, ind, bs, s2) as u32, bs) >= 0) by {
            assert(ceil_div(dir_word(d, ind, bs, s2) as u32 as int, bs as int) >= 0);
        }
        if s1 < s2 {
            lemma_dir_blocks_before_mono(d, ind, bs, s1, s2 - 1);
        } else {
            lemma_dir_blocks_before_mono(d, ind, bs, s1 - 1, s2 - 1);
        }
    }
}

/// The directory's table of contents: per-stream byte length and ordered
/// block-index list.
pub struct StreamDirectory {
    pub num_streams: u32,
    pub stream_sizes: Vec<u32>,
    pub stream_blocks: Vec<Vec<u32>>,
}

/// How many fields the directory walk has consumed so far, given the next
/// indirection entry to fetch and the bytes still unread in the current block.
pub open spec fn words_done(bs: u32, cur: int, bytes_left: int) -> int {
    if cur == 0 {
        0
    } else {
        (cur - 1) * words_per_block(bs) + (bs - bytes_left) / 4
    }
}

/// Coupling between the walk's counters and the source's cursor: the walk
/// stands `bs - bytes_left` bytes into indirection block `cur - 1`.
pub open spec fn dir_cursor_ok(
    d: Seq<u8>,
    ind: Seq<u32>,
    bs: u32,
    cur: int,
    bytes_left: int,
    pos: int,
) -> bool {
    &&& 0 <= cur <= ind.len()
    &&& 0 <= bytes_left <= bs
    &&& bytes_left % 4 == 0
    &&& (cur == 0 ==> bytes_left == 0)
    &&& (cur > 0 ==> pos == ind[cur - 1] * bs + (bs - bytes_left))
}

/// Reads the next 4-byte directory field, refilling from the next
/// indirection block exactly when the current one is spent.
fn next_dir_word(
    src: &mut Source,
    bs: u32,
    ind: &Vec<u32>,
    cur: &mut usize,
    bytes_left: &mut u32,
) -> (r: Result<u32, Error>)
    requires
        valid_block_size(bs),
        dir_cursor_ok(
            old(src).data@,
            ind@,
            bs,
            *old(cur) as int,
            *old(bytes_left) as int,
            old(src).pos as int,
        ),
    ensures
        final(src).data@ == old(src).data@,
        ({
            let d = old(src).data@;
            let w0 = words_done(bs, *old(cur) as int, *old(bytes_left) as int);
            if dir_word_avail(d, ind@, bs, w0) {
                &&& r matches Ok(w) && w == dir_word(d, ind@, bs, w0)
                &&& dir_cursor_ok(
                    d,
                    ind@,
                    bs,
                    *final(cur) as int,
                    *final(bytes_left) as int,
                    final(src).pos as int,
                )
                &&& words_done(bs, *final(cur) as int, *final(bytes_left) as int) == w0 + 1
            } else if w0 / words_per_block(bs) >= ind@.len() {
                r == Err::<u32, Error>(Error::StreamDirectoryTooSmall)
            } else {
                r == Err::<u32, Error>(Error::Consume)
            }
        }),
{
    let ghost w0 = words_done(bs, *cur as int, *bytes_left as int);
    let ghost w = words_per_block(bs);
    if *bytes_left == 0 {
        proof {
            let c = *cur as int;
            if c > 0 {
                assert(bs as int - 0 == bs as int);
                assert(w0 == (c - 1) * w + w);
                assert((c - 1) * w + w == c * w) by (nonlinear_arith);
            } else {
                assert(w0 == 0);
                assert(c * w == 0) by (nonlinear_arith)
                    requires
                        c == 0,
                ;
            }
            assert(w0 == c * w);
            vstd::arithmetic::div_mod::lemma_fundamental_div_mod_converse(w0, w, c, 0);
        }
        if *cur >= ind.len() {
            return Err(Error::StreamDirectoryTooSmall);
        }
        let blk = ind[*cur];
        proof {
            assert(blk as int * bs as int <= 0xFFFF_FFFFint * 4096int) by (nonlinear_arith)
                requires
                    blk <= 0xFFFF_FFFFu32,
                    0 <= bs <= 4096,
            ;
        }
        src.seek(blk as u64 * bs as u64);
        *cur = *cur + 1;
        *bytes_left = bs;
        proof {
            vstd::arithmetic::div_mod::lemma_div_multiples_vanish(w - 1, 4);
            assert((4 * (w - 1)) / 4 == w - 1);
            assert((bs - (bs - 4)) / 4 == 1);
        }
    } else {
        proof {
            let c = *cur as int;
            let bl = *bytes_left as int;
            let q = bl / 4;
            assert(bl == 4 * q);
            assert(bs == 4 * w);
            assert(bs - bl == 4 * (w - q));
            vstd::arithmetic::div_mod::lemma_div_multiples_vanish(w - q, 4);
            assert((bs - bl) / 4 == w - q);
            vstd::arithmetic::div_mod::lemma_fundamental_div_mod_converse(w0, w, c - 1, w - q);
        }
    }
    proof {
        assert(dir_word_pos(ind@, bs, w0) == src.pos as int);
    }
    match src.read_u32() {
        Some(rw) => {
            proof {
                let c = *cur as int;
                let bl = *bytes_left as int;
                let q = bl / 4;
                assert(bl == 4 * q);
                assert(bs - (bl - 4) == 4 * (w - q + 1));
                vstd::arithmetic::div_mod::lemma_div_multiples_vanish(w - q + 1, 4);
                assert((bs - (bl - 4)) / 4 == w - q + 1);
            }
            *bytes_left = *bytes_left - 4;
            Ok(rw)
        },
        None => Err(Error::Consume),
    }
}

impl StreamDirectory {
    /// Decodes the stream directory: reads the indirection-block table at
    /// block `block_map_addr`, then walks the directory's own bytes through
    /// those blocks, moving to the next block exactly when the current one
    /// is spent, to collect every stream's byte length and block list.
    pub fn load(src: &mut Source, sb: &SuperBlock) -> (r: Result<StreamDirectory, Error>)
        requires
            valid_block_size(sb.block_size),
        ensures
            final(src).data@ == old(src).data@,
            ({
                let d = old(src).data@;
                if dir_decode_ok(d, sb.block_map_addr, sb.block_size, sb.num_directory_bytes) {
                    &&& r matches Ok(sd)
                    &&& sd_matches(sd, d, sb.block_map_addr, sb.block_size, sb.num_directory_bytes)
                } else {
                    r == Err::<StreamDirectory, Error>(
                        dir_decode_err(d, sb.block_map_addr, sb.block_size, sb.num_directory_bytes),
                    )
                }
            }),
    {
        let ghost d = old(src).data@;
        let bs = sb.block_size;
        let ghost map = sb.block_map_addr;
        let ghost ndb = sb.num_directory_bytes;
        let cnt: u64 = ((sb.num_directory_bytes as u64) + (bs as u64) - 1) / (bs as u64);
        proof {
            assert(map as int * bs as int <= 0xFFFF_FFFFint * 4096int) by (nonlinear_arith)
                requires
                    map <= 0xFFFF_FFFFu32,
                    0 <= bs <= 4096,
            ;
        }
        let map_pos: u64 = (sb.block_map_addr as u64) * (bs as u64);
        src.seek(map_pos);
        let mut ind: Vec<u32> = Vec::new();
        let mut i: u64 = 0;
        while i < cnt
            invariant
                i <= cnt,
                valid_block_size(bs),
                bs == sb.block_size,
                map == sb.block_map_addr,
                ndb == sb.num_directory_bytes,
                cnt as int == ind_count(ndb, bs),
                map_pos as int == ind_map_pos(map, bs),
                d == old(src).data@,
                src.data@ == d,
                src.pos == map_pos + 4 * i,
                ind@.len() == i,
                i > 0 ==> map_pos + 4 * i <= d.len(),
                forall|t: int| 0 <= t < i ==> ind@[t] as int == ind_entry(d, map, bs, t),
            decreases cnt - i,
        {
            match src.read_u32() {
                Some(w) => {
                    ind.push(w);
                },
                None => {
                    proof {
                        assert(!ind_readable(d, map, bs, ndb));
                    }
                    return Err(Error::Consume);
                },
            }
            i = i + 1;
        }
        let ghost inds = ind_seq(d, map, bs, ndb);
        proof {
            assert(inds =~= ind@);
        }
        let mut cur: usize = 0;
        let mut bytes_left: u32 = 0;
        let num_streams: u32;
        match next_dir_word(src, bs, &ind, &mut cur, &mut bytes_left) {
            Ok(wv) => {
                num_streams = wv;
            },
            Err(e) => {
                proof {
                    lemma_dir_blocks_before_mono(d, inds, bs, 0, dir_num_streams(d, inds, bs));
                }
                return Err(e);
            },
        }
        let ghost ns = dir_num_streams(d, inds, bs);
        let mut stream_sizes: Vec<u32> = Vec::new();
        let mut s: u32 = 0;
        while s < num_streams
            invariant
                s <= num_streams,
                valid_block_size(bs),
                bs == sb.block_size,
                map == sb.block_map_addr,
                ndb == sb.num_directory_bytes,
                d == old(src).data@,
                src.data@ == d,
                inds == ind@,
                inds == ind_seq(d, map, bs, ndb),
                inds.len() > 0 ==> ind_readable(d, map, bs, ndb),
                ns == dir_num_streams(d, inds, bs),
                num_streams as int == ns,
                stream_sizes@.len() == s,
                forall|t: int| 0 <= t < s ==> #[trigger] stream_sizes@[t] as int == dir_word(
                    d,
                    inds,
                    bs,
                    1 + t,
                ),
                dir_cursor_ok(d, inds, bs, cur as int, bytes_left as int, src.pos as int),
                words_done(bs, cur as int, bytes_left as int) == 1 + s,
                forall|j: int| 0 <= j < 1 + s ==> dir_word_avail(d, inds, bs, j),
            decreases num_streams - s,
        {
            match next_dir_word(src, bs, &ind, &mut cur, &mut bytes_left) {
                Ok(wv) => {
                    stream_sizes.push(wv);
                },
                Err(e) => {
                    proof {
                        lemma_dir_blocks_before_mono(d, inds, bs, 0, ns);
                        let total = dir_total_words(d, inds, bs);
                        lemma_dir_first_unavail_is(d, inds, bs, 0, 1 + s as int, total);
                    }
                    return Err(e);
                },
            }
            s = s + 1;
        }
        let mut stream_blocks: Vec<Vec<u32>> = Vec::new();
        let mut s2: u32 = 0;
        while s2 < num_streams
            invariant
                s2 <= num_streams,
                valid_block_size(bs),
                bs == sb.block_size,
                map == sb.block_map_addr,
                ndb == sb.num_directory_bytes,
                d == old(src).data@,
                src.data@ == d,
                inds == ind@,
                inds == ind_seq(d, map, bs, ndb),
                inds.len() > 0 ==> ind_readable(d, map, bs, ndb),
                ns == dir_num_streams(d, inds, bs),
                num_streams as int == ns,
                stream_sizes@.len() == ns,
                forall|t: int| 0 <= t < ns ==> #[trigger] stream_sizes@[t] as int == dir_word(
                    d,
                    inds,
                    bs,
                    1 + t,
                ),
                stream_blocks@.len() == s2,
                forall|t: int| 0 <= t < s2 ==> (#[trigger] stream_blocks@[t])@.len() == blocks_for(
                    stream_sizes@[t],
                    bs,
                ),
                forall|t: int, k: int|
                    0 <= t < s2 && 0 <= k < stream_blocks@[t]@.len()
                        ==> #[trigger] stream_blocks@[t]@[k] as int == dir_word(
                        d,
                        inds,
                        bs,
                        1 + ns + dir_blocks_before(d, inds, bs, t) + k,
                    ),
                dir_cursor_ok(d, inds, bs, cur as int, bytes_left as int, src.pos as int),
                words_done(bs, cur as int, bytes_left as int) == 1 + ns + dir_blocks_before(
                    d,
                    inds,
                    bs,
                    s2 as int,
                ),
                forall|j: int|
                    0 <= j < words_done(bs, cur as int, bytes_left as int)
                        ==> dir_word_avail(d, inds, bs, j),
            decreases num_streams - s2,
        {
            let size = stream_sizes[s2 as usize];
            let nb: u64 = ((size as u64) + (bs as u64) - 1) / (bs as u64);
            proof {
                assert(nb as int == blocks_for(size, bs));
                assert(dir_word(d, inds, bs, 1 + s2) as u32 == size);
                assert(dir_blocks_before(d, inds, bs, s2 + 1) == dir_blocks_before(
                    d,
                    inds,
                    bs,
                    s2 as int,
                ) + blocks_for(size, bs));
            }
            let mut cur_vec: Vec<u32> = Vec::new();
            let mut k: u64 = 0;
            while k < nb
                invariant
                    k <= nb,
                    valid_block_size(bs),
                    bs == sb.block_size,
                    map == sb.block_map_addr,
                    ndb == sb.num_directory_bytes,
                    d == old(src).data@,
                    src.data@ == d,
                    inds == ind@,
                    inds == ind_seq(d, map, bs, ndb),
                    inds.len() > 0 ==> ind_readable(d, map, bs, ndb),
                    ns == dir_num_streams(d, inds, bs),
                    num_streams as int == ns,
                    0 <= s2 < num_streams,
                    nb as int == blocks_for(size, bs),
                    dir_blocks_before(d, inds, bs, s2 + 1) == dir_blocks_before(
                        d,
                        inds,
                        bs,
                        s2 as int,
                    ) + blocks_for(size, bs),
                    cur_vec@.len() == k,
                    forall|t: int|
                        0 <= t < k ==> #[trigger] cur_vec@[t] as int == dir_word(
                            d,
                            inds,
                            bs,
                            1 + ns + dir_blocks_before(d, inds, bs, s2 as int) + t,
                        ),
                    dir_cursor_ok(d, inds, bs, cur as int, bytes_left as int, src.pos as int),
                    words_done(bs, cur as int, bytes_left as int) == 1 + ns + dir_blocks_before(
                        d,
                        inds,
                        bs,
                        s2 as int,
                    ) + k,
                    forall|j: int|
                        0 <= j < words_done(bs, cur as int, bytes_left as int)
                            ==> dir_word_avail(d, inds, bs, j),
                decreases nb - k,
            {
                match next_dir_word(src, bs, &ind, &mut cur, &mut bytes_left) {
                    Ok(wv) => {
                        cur_vec.push(wv);
                    },
                    Err(e) => {
                        proof {
                            lemma_dir_blocks_before_mono(d, inds, bs, s2 + 1, ns);
                            let total = dir_total_words(d, inds, bs);
                            let w0 = 1 + ns + dir_blocks_before(d, inds, bs, s2 as int) + k as int;
                            lemma_dir_first_unavail_is(d, inds, bs, 0, w0, total);
                        }
                        return Err(e);
                    },
                }
                k = k + 1;
            }
            stream_blocks.push(cur_vec);
            s2 = s2 + 1;
        }
        let sd = StreamDirectory { num_streams, stream_sizes, stream_blocks };
        proof {
            assert(words_done(bs, cur as int, bytes_left as int) == dir_total_words(d, inds, bs));
            assert(dir_word_avail(d, inds, bs, 0));
            assert(inds.len() > 0);
            assert(dir_decode_ok(d, map, bs, ndb));
            assert(sd_matches(sd, d, map, bs, ndb));
        }
        Ok(sd)
    }
}

/// The MSF container: validated superblock plus decoded stream directory.
pub struct MSF {
    pub sb: SuperBlock,
    pub sd: StreamDirectory,
}

impl MSF {
    /// The container's internal consistency: a valid block size, and one
    /// byte length and one block list per stream, the list exactly as long
    /// as the length demands.
    pub open spec fn wf(&self) -> bool {
        &&& valid_block_size(self.sb.block_size)
        &&& self.sd.stream_sizes@.len() == self.sd.num_streams
        &&& self.sd.stream_blocks@.len() == self.sd.num_streams
        &&& forall|t: int|
            0 <= t < self.sd.num_streams ==> (#[trigger] self.sd.stream_blocks@[t])@.len()
                == blocks_for(self.sd.stream_sizes@[t], self.sb.block_size)
    }

    /// Decodes the superblock, then the stream directory it points at.
    pub fn load(src: &mut Source) -> (r: Result<MSF, Error>)
        ensures
            final(src).data@ == old(src).data@,
            ({
                let d = old(src).data@;
                let p = old(src).pos as int;
                if !sb_load_ok(d, p) {
                    r == Err::<MSF, Error>(sb_load_err(d, p))
                } else {
                    let bs = le32_at(d, p + 32) as u32;
                    let ndb = le32_at(d, p + 44) as u32;
                    let map = le32_at(d, p + 52) as u32;
                    if dir_decode_ok(d, map, bs, ndb) {
                        &&& r matches Ok(m)
                        &&& sb_matches(m.sb, d, p)
                        &&& sd_matches(m.sd, d, map, bs, ndb)
                        &&& m.wf()
                    } else {
                        r == Err::<MSF, Error>(dir_decode_err(d, map, bs, ndb))
                    }
                }
            }),
    {
        let sb = match SuperBlock::load(src) {
            Ok(sb) => sb,
            Err(e) => {
                return Err(e);
            },
        };
        let sd = match StreamDirectory::load(src, &sb) {
            Ok(sd) => sd,
            Err(e) => {
                return Err(e);
            },
        };
        Ok(MSF { sb, sd })
    }

    /// The container's block size.
    pub fn block_size(&self) -> (r: usize)
        ensures
            r == self.sb.block_size,
    {
        self.sb.block_size as usize
    }
}

/// Where a stream read or seek starts from.
pub enum SeekFrom {
    Start(u64),
    End(i64),
    Current(i64),
}

/// Physical file offset of logical stream offset `o`, through the stream's
/// block list.
pub open spec fn stream_off(blocks: Seq<u32>, bs: u32, o: int) -> int {
    blocks[o / (bs as int)] * bs + o % (bs as int)
}

/// The stream's byte at logical offset `o`.
pub open spec fn stream_byte(d: Seq<u8>, blocks: Seq<u32>, bs: u32, o: int) -> u8 {
    d[stream_off(blocks, bs, o)]
}

/// The stream's bytes at logical offsets `[pos, pos + n)`.
pub open spec fn stream_bytes(d: Seq<u8>, blocks: Seq<u32>, bs: u32, pos: int, n: int) -> Seq<u8> {
    Seq::new(n as nat, |j: int| stream_byte(d, blocks, bs, pos + j))
}

/// Whether logical offsets `[pos, pos + n)` lie within the stream's
/// addressable range and every one maps to a byte inside the file.
pub open spec fn stream_read_ok(d: Seq<u8>, blocks: Seq<u32>, bs: u32, pos: int, n: int) -> bool {
    &&& pos + n <= blocks.len() * bs
    &&& forall|o: int| pos <= o < pos + n ==> stream_off(blocks, bs, o) + 1 <= d.len()
}

/// Random access over one stream's logical byte range. The cursor is the
/// reader's own; the file bytes and the container are passed to each call.
pub struct MSFStreamReader {
    pub current_block_idx: u32,
    pub current_bytes_into_block: u32,
    pub stream_number: u32,
}

impl MSFStreamReader {
    /// The cursor's logical byte offset into the stream.
    pub open spec fn pos_spec(&self, bs: u32) -> int {
        self.current_block_idx * bs + self.current_bytes_into_block
    }

    /// The cursor never stands at or past the end of its current block.
    pub open spec fn wf(&self, msf: &MSF) -> bool {
        self.current_bytes_into_block < msf.sb.block_size
    }

    /// Opens a reader over stream `strm_num`, cursor at offset 0.
    pub fn new(msf: &MSF, strm_num: u32) -> (r: Result<MSFStreamReader, Error>)
        requires
            msf.wf(),
        ensures
            if strm_num < msf.sd.num_streams {
                &&& r matches Ok(sr)
                &&& sr.current_block_idx == 0
                &&& sr.current_bytes_into_block == 0
                &&& sr.stream_number == strm_num
                &&& sr.wf(msf)
            } else {
                r == Err::<MSFStreamReader, Error>(Error::StreamNumberOutOfBounds)
            },
    {
        if msf.sd.num_streams <= strm_num {
            return Err(Error::StreamNumberOutOfBounds);
        }
        Ok(MSFStreamReader { current_block_idx: 0, current_bytes_into_block: 0, stream_number: strm_num })
    }

    /// Retargets the reader at another stream; the cursor is kept.
    pub fn change_stream(&mut self, msf: &MSF, stream_no: u32) -> (r: Result<(), Error>)
        ensures
            if stream_no < msf.sd.num_streams {
                &&& r == Ok::<(), Error>(())
                &&& final(self).stream_number == stream_no
                &&& final(self).current_block_idx == old(self).current_block_idx
                &&& final(self).current_bytes_into_block == old(self).current_bytes_into_block
            } else {
                r == Err::<(), Error>(Error::StreamNumberOutOfBounds) && *final(self) == *old(self)
            },
    {
        if msf.sd.num_streams <= stream_no {
            return Err(Error::StreamNumberOutOfBounds);
        }
        self.stream_number = stream_no;
        Ok(())
    }

    /// Moves the cursor to an absolute stream offset. Offsets past the
    /// stream's addressable capacity are refused, never clamped; relative
    /// and from-end seeks are unsupported.
    pub fn seek(&mut self, msf: &MSF, pos: SeekFrom) -> (r: Result<u64, Error>)
        requires
            msf.wf(),
        ensures
            final(self).stream_number == old(self).stream_number,
            ({
                let bs = msf.sb.block_size;
                let sn = old(self).stream_number as int;
                if sn >= msf.sd.num_streams {
                    r == Err::<u64, Error>(Error::StreamNumberOutOfBounds)
                        && *final(self) == *old(self)
                } else {
                    match pos {
                        SeekFrom::Start(p) => {
                            let cap = msf.sd.stream_blocks@[sn]@.len() * bs;
                            if p > cap {
                                r == Err::<u64, Error>(Error::UnexpectedEndOfStream)
                                    && *final(self) == *old(self)
                            } else {
                                &&& r == Ok::<u64, Error>(p)
                                &&& final(self).current_block_idx == p as int / bs as int
                                &&& final(self).current_bytes_into_block == p as int % bs as int
                                &&& final(self).pos_spec(bs) == p
                            }
                        },
                        _ => r == Err::<u64, Error>(Error::Unsupported)
                            && *final(self) == *old(self),
                    }
                }
            }),
    {
        let bs = msf.sb.block_size;
        if msf.sd.num_streams <= self.stream_number {
            return Err(Error::StreamNumberOutOfBounds);
        }
        let blen: usize = msf.sd.stream_blocks[self.stream_number as usize].len();
        proof {
            assert(blen * bs <= 0xFF_FFFFint * 4096int) by (nonlinear_arith)
                requires
                    0 <= blen <= 0xFF_FFFF,
                    0 <= bs <= 4096,
            ;
        }
        let cap: u64 = blen as u64 * bs as u64;
        match pos {
            SeekFrom::Start(p) => {
                if p > cap {
                    return Err(Error::UnexpectedEndOfStream);
                }
                let block_entry: u64 = p / bs as u64;
                let pos_in_block: u64 = p % bs as u64;
                proof {
                    assert(p as int / bs as int <= blen) by {
                        vstd::arithmetic::div_mod::lemma_div_is_ordered(
                            p as int,
                            cap as int,
                            bs as int,
                        );
                        vstd::arithmetic::div_mod::lemma_div_multiples_vanish(
                            blen as int,
                            bs as int,
                        );
                    }
                    vstd::arithmetic::div_mod::lemma_fundamental_div_mod(p as int, bs as int);
                }
                self.current_block_idx = block_entry as u32;
                self.current_bytes_into_block = pos_in_block as u32;
                Ok(p)
            },
            _ => Err(Error::Unsupported),
        }
    }

    /// Reads `n` bytes from the cursor onwards, in stream order, crossing
    /// block boundaries as needed. A read past the stream's addressable end
    /// is refused whole, never truncated; on any error the cursor is kept.
    pub fn read(&mut self, file: &Vec<u8>, msf: &MSF, n: usize) -> (r: Result<Vec<u8>, Error>)
        requires
            msf.wf(),
            old(self).wf(msf),
        ensures
            final(self).wf(msf),
            final(self).stream_number == old(self).stream_number,
            ({
                let bs = msf.sb.block_size;
                let sn = old(self).stream_number as int;
                if sn >= msf.sd.num_streams {
                    r == Err::<Vec<u8>, Error>(Error::StreamNumberOutOfBounds)
                        && *final(self) == *old(self)
                } else {
                    let blocks = msf.sd.stream_blocks@[sn]@;
                    let pos = old(self).pos_spec(bs);
                    if pos + n > blocks.len() * bs {
                        r == Err::<Vec<u8>, Error>(Error::UnexpectedEndOfStream)
                            && *final(self) == *old(self)
                    } else if !stream_read_ok(file@, blocks, bs, pos, n as int) {
                        r == Err::<Vec<u8>, Error>(Error::BlockNumberOutOfBounds)
                            && *final(self) == *old(self)
                    } else {
                        &&& r matches Ok(buf)
                        &&& buf@ == stream_bytes(file@, blocks, bs, pos, n as int)
                        &&& final(self).pos_spec(bs) == pos + n
                        &&& final(self).current_block_idx == (pos + n) / bs as int
                        &&& final(self).current_bytes_into_block == (pos + n) % bs as int
                    }
                }
            }),
    {
        let bs = msf.sb.block_size;
        if msf.sd.num_streams <= self.stream_number {
            return Err(Error::StreamNumberOutOfBounds);
        }
        let sn = self.stream_number as usize;
        let blocks: &Vec<u32> = &msf.sd.stream_blocks[sn];
        let blen: usize = blocks.len();
        proof {
            assert(blen * bs <= 0xFF_FFFFint * 4096int) by (nonlinear_arith)
                requires
                    0 <= blen <= 0xFF_FFFF,
                    0 <= bs <= 4096,
            ;
            let cbi = old(self).current_block_idx as int;
            assert(cbi * bs as int <= 0xFFFF_FFFFint * 4096int) by (nonlinear_arith)
                requires
                    0 <= cbi <= 0xFFFF_FFFF,
                    0 <= bs <= 4096,
            ;
        }
        let cap: u64 = blen as u64 * bs as u64;
        let pos0: u64 = self.current_block_idx as u64 * bs as u64
            + self.current_bytes_into_block as u64;
        if (pos0 as u128) + (n as u128) > cap as u128 {
            return Err(Error::UnexpectedEndOfStream);
        }
        let ghost gpos: int = old(self).pos_spec(bs);
        let ghost gblocks: Seq<u32> = msf.sd.stream_blocks@[sn as int]@;
        let mut out: Vec<u8> = Vec::new();
        let mut idx: u32 = self.current_block_idx;
        let mut off: u32 = self.current_bytes_into_block;
        let mut done: usize = 0;
        proof {
            assert(out@ =~= stream_bytes(file@, gblocks, bs, gpos, 0));
        }
        while done < n
            invariant
                done <= n,
                valid_block_size(bs),
                bs == msf.sb.block_size,
                gblocks == msf.sd.stream_blocks@[sn as int]@,
                sn == old(self).stream_number,
                sn < msf.sd.num_streams,
                blen == gblocks.len(),
                blen <= 0xFF_FFFF,
                blocks@ == gblocks,
                *self == *old(self),
                old(self).wf(msf),
                gpos == old(self).pos_spec(bs),
                gpos + n <= blen * bs,
                off < bs,
                idx as int * bs + off == gpos + done,
                forall|o: int|
                    gpos <= o < gpos + done ==> stream_off(gblocks, bs, o) + 1 <= file@.len(),
                out@ == stream_bytes(file@, gblocks, bs, gpos, done as int),
            decreases n - done,
        {
            proof {
                vstd::arithmetic::div_mod::lemma_fundamental_div_mod_converse(
                    gpos + done,
                    bs as int,
                    idx as int,
                    off as int,
                );
                assert(idx < blen) by {
                    if idx as int >= blen {
                        vstd::arithmetic::mul::lemma_mul_inequality(
                            blen as int,
                            idx as int,
                            bs as int,
                        );
                        assert(false);
                    }
                }
            }
            let cur_block: u32 = blocks[idx as usize];
            let until_end: u32 = bs - off;
            let remaining: usize = n - done;
            let chunk: usize = if (until_end as usize) < remaining {
                until_end as usize
            } else {
                remaining
            };
            proof {
                assert(cur_block as int * bs as int <= 0xFFFF_FFFFint * 4096int)
                    by (nonlinear_arith)
                    requires
                        0 <= cur_block <= 0xFFFF_FFFFu32,
                        0 <= bs <= 4096,
                ;
            }
            let phys: u64 = cur_block as u64 * bs as u64 + off as u64;
            if (phys as u128) + (chunk as u128) > (file.len() as u128) {
                proof {
                    let bad: int = gpos + done + chunk - 1;
                    vstd::arithmetic::div_mod::lemma_fundamental_div_mod_converse(
                        bad,
                        bs as int,
                        idx as int,
                        off + chunk - 1,
                    );
                    assert(stream_off(gblocks, bs, bad) + 1 > file@.len());
                    assert(!stream_read_ok(file@, gblocks, bs, gpos, n as int));
                }
                return Err(Error::BlockNumberOutOfBounds);
            }
            let phys_us: usize = phys as usize;
            let mut j: usize = 0;
            while j < chunk
                invariant
                    j <= chunk,
                    phys_us + chunk <= file@.len(),
                    phys_us == cur_block as int * bs as int + off,
                    idx as int * bs + off == gpos + done,
                    off + chunk <= bs,
                    cur_block == gblocks[idx as int],
                    0 <= idx,
                    out@.len() == done + j,
                    out@ == stream_bytes(file@, gblocks, bs, gpos, done + j),
                    gblocks == msf.sd.stream_blocks@[sn as int]@,
                    sn < msf.sd.num_streams,
                    bs == msf.sb.block_size,
                    valid_block_size(bs),
                    done + chunk <= n,
                decreases chunk - j,
            {
                proof {
                    vstd::arithmetic::div_mod::lemma_fundamental_div_mod_converse(
                        gpos + done + j,
                        bs as int,
                        idx as int,
                        off + j,
                    );
                    assert(stream_off(gblocks, bs, gpos + done + j) == phys_us + j);
                }
                out.push(file[phys_us + j]);
                proof {
                    assert(out@ =~= stream_bytes(file@, gblocks, bs, gpos, done + j + 1));
                }
                j = j + 1;
            }
            proof {
                assert forall|o: int| gpos + done <= o < gpos + done + chunk implies stream_off(
                    gblocks,
                    bs,
                    o,
                ) + 1 <= file@.len() by {
                    vstd::arithmetic::div_mod::lemma_fundamental_div_mod_converse(
                        o,
                        bs as int,
                        idx as int,
                        off + (o - gpos - done),
                    );
                }
            }
            done = done + chunk;
            if off + chunk as u32 == bs {
                proof {
                    assert((idx + 1) as int * bs as int == idx as int * bs as int + bs as int)
                        by (nonlinear_arith);
                }
                idx = idx + 1;
                off = 0;
            } else {
                off = off + chunk as u32;
            }
        }
        proof {
            vstd::arithmetic::div_mod::lemma_fundamental_div_mod_converse(
                gpos + n,
                bs as int,
                idx as int,
                off as int,
            );
        }
        self.current_block_idx = idx;
        self.current_bytes_into_block = off;
        Ok(out)
    }
}

/// One stream's blocks, each expanded to its `bs` file bytes, concatenated
/// in block-list order.
pub open spec fn blocks_concat(d: Seq<u8>, blocks: Seq<u32>, bs: u32) -> Seq<u8>
    decreases blocks.len(),
{
    if blocks.len() == 0 {
        Seq::empty()
    } else {
        Seq::new(bs as nat, |k: int| d[blocks[0] * bs + k]) + blocks_concat(
            d,
            blocks.drop_first(),
            bs,
        )
    }
}

pub proof fn lemma_blocks_concat_len(d: Seq<u8>, blocks: Seq<u32>, bs: u32)
    ensures
        blocks_concat(d, blocks, bs).len() == blocks.len() * bs,
    decreases blocks.len(),
{
    if blocks.len() == 0 {
    } else {
        lemma_blocks_concat_len(d, blocks.drop_first(), bs);
        assert((blocks.len() - 1) * bs as int + bs as int == blocks.len() * bs as int)
            by (nonlinear_arith);
    }
}

pub proof fn lemma_blocks_concat_index(d: Seq<u8>, blocks: Seq<u32>, bs: u32, o: int)
    requires
        valid_block_size(bs),
        0 <= o < blocks.len() * bs,
    ensures
        blocks_concat(d, blocks, bs)[o] == stream_byte(d, blocks, bs, o),
    decreases blocks.len(),
{
    lemma_blocks_concat_len(d, blocks, bs);
    if blocks.len() == 0 {
        assert(0 * bs as int == 0) by (nonlinear_arith);
    } else if o < bs {
        vstd::arithmetic::div_mod::lemma_fundamental_div_mod_converse(o, bs as int, 0, o);
    } else {
        let ll = blocks.len() as int;
        assert((ll - 1) * bs as int == ll * bs as int - bs as int) by (nonlinear_arith);
        assert(blocks.drop_first().len() == ll - 1);
        lemma_blocks_concat_index(d, blocks.drop_first(), bs, o - bs);
        let q = (o - bs) / bs as int;
        let rr = (o - bs) % bs as int;
        vstd::arithmetic::div_mod::lemma_fundamental_div_mod(o - bs, bs as int);
        assert(o == (q + 1) * bs as int + rr) by (nonlinear_arith)
            requires
                o - bs == q * bs as int + rr,
        ;
        vstd::arithmetic::div_mod::lemma_fundamental_div_mod_converse(o, bs as int, q + 1, rr);
    }
}

/// Round-trip: reading `n` bytes from offset 0 yields exactly the
/// concatenation of the stream's blocks' bytes, truncated to `n`.
pub proof fn lemma_read_is_blocks_concat(d: Seq<u8>, blocks: Seq<u32>, bs: u32, n: int)
    requires
        valid_block_size(bs),
        0 <= n <= blocks.len() * bs,
    ensures
        stream_bytes(d, blocks, bs, 0, n) == blocks_concat(d, blocks, bs).take(n),
{
    lemma_blocks_concat_len(d, blocks, bs);
    assert forall|o: int| 0 <= o < n implies blocks_concat(d, blocks, bs).take(n)[o]
        == stream_byte(d, blocks, bs, o) by {
        lemma_blocks_concat_index(d, blocks, bs, o);
    }
    assert(stream_bytes(d, blocks, bs, 0, n) =~= blocks_concat(d, blocks, bs).take(n));
}

/// Splitting one read in two, at any point, yields the same bytes: the
/// bytes of `[pos, pos+m+n)` are those of `[pos, pos+m)` then those of
/// `[pos+m, pos+m+n)`.
pub proof fn lemma_stream_bytes_split(
    d: Seq<u8>,
    blocks: Seq<u32>,
    bs: u32,
    pos: int,
    m: int,
    n: int,
)
    requires
        0 <= m,
        0 <= n,
    ensures
        stream_bytes(d, blocks, bs, pos, m + n) == stream_bytes(d, blocks, bs, pos, m)
            + stream_bytes(d, blocks, bs, pos + m, n),
{
    assert(stream_bytes(d, blocks, bs, pos, m + n) =~= stream_bytes(d, blocks, bs, pos, m)
        + stream_bytes(d, blocks, bs, pos + m, n));
}

/// Seek-then-read agreement: the bytes read after seeking to `k` equal the
/// tail, from `k` on, of one read of `k + n` bytes from offset 0.
pub proof fn lemma_seek_then_read(d: Seq<u8>, blocks: Seq<u32>, bs: u32, k: int, n: int)
    requires
        0 <= k,
        0 <= n,
    ensures
        stream_bytes(d, blocks, bs, k, n) == stream_bytes(d, blocks, bs, 0, k + n).skip(k),
{
    assert(stream_bytes(d, blocks, bs, k, n) =~= stream_bytes(d, blocks, bs, 0, k + n).skip(k));
}

} // verus!
