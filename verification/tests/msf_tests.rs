use pdbmsf::msf::{Error, MSFStreamReader, SeekFrom, SuperBlock, MSF};
use pdbmsf::util::Source;

const MAGIC: &[u8; 32] = b"Microsoft C/C++ MSF 7.00\r\n\x1aDS\x00\x00\x00";

fn push_u32(v: &mut Vec<u8>, x: u32) {
    v.extend_from_slice(&x.to_le_bytes());
}

fn superblock_bytes(
    block_size: u32,
    free_block_map: u32,
    num_blocks: u32,
    num_directory_bytes: u32,
    block_map_addr: u32,
) -> Vec<u8> {
    let mut v = MAGIC.to_vec();
    push_u32(&mut v, block_size);
    push_u32(&mut v, free_block_map);
    push_u32(&mut v, num_blocks);
    push_u32(&mut v, num_directory_bytes);
    push_u32(&mut v, 0); // reserved
    push_u32(&mut v, block_map_addr);
    v
}

#[test]
fn superblock_decodes_valid_header() {
    let mut src = Source::new(superblock_bytes(4096, 1, 4, 16, 2));
    let sb = SuperBlock::load(&mut src).unwrap();
    assert_eq!(sb.block_size, 4096);
    assert_eq!(sb.free_block_map, 1);
    assert_eq!(sb.num_blocks, 4);
    assert_eq!(sb.num_directory_bytes, 16);
    assert_eq!(sb.unknown, 0);
    assert_eq!(sb.block_map_addr, 2);
    assert_eq!(sb.file_magic, MAGIC.to_vec());
}

#[test]
fn superblock_bad_magic_fails_for_every_block_size() {
    for &bs in &[512u32, 1024, 2048, 4096] {
        let mut bytes = superblock_bytes(bs, 1, 4, 16, 2);
        bytes[0] = b'X';
        let mut src = Source::new(bytes);
        assert!(matches!(SuperBlock::load(&mut src), Err(Error::NotPDBFile)));
        // The failure comes before any later field is read: even a garbage
        // block size is never reported.
        let mut bytes2 = superblock_bytes(777, 1, 4, 16, 2);
        bytes2[31] = 0xFF;
        let mut src2 = Source::new(bytes2);
        assert!(matches!(SuperBlock::load(&mut src2), Err(Error::NotPDBFile)));
    }
}

#[test]
fn superblock_invalid_block_size_is_reported_with_value() {
    let mut src = Source::new(superblock_bytes(777, 1, 4, 16, 2));
    assert!(matches!(
        SuperBlock::load(&mut src),
        Err(Error::InvalidBlockSize(777))
    ));
}

#[test]
fn superblock_short_input_is_a_consume_error() {
    let mut src = Source::new(MAGIC[..16].to_vec());
    assert!(matches!(SuperBlock::load(&mut src), Err(Error::Consume)));
    let mut src2 = Source::new(MAGIC.to_vec());
    assert!(matches!(SuperBlock::load(&mut src2), Err(Error::Consume)));
}

/// A whole synthetic MSF file with block size 512: block 0 superblock,
/// block 1 the indirection table, blocks 2.. the directory's own bytes.
fn msf_file_512(dir_words: &[u32]) -> Vec<u8> {
    let bs = 512usize;
    let ndb = (dir_words.len() * 4) as u32;
    let ind_count = ((ndb as usize) + bs - 1) / bs;
    let num_blocks = 2 + ind_count.max(1);
    let mut file = superblock_bytes(512, 1, num_blocks as u32, ndb, 1);
    file.resize(num_blocks * bs, 0);
    // indirection table in block 1: directory bytes live in blocks 2, 3, ...
    for i in 0..ind_count {
        let e = ((2 + i) as u32).to_le_bytes();
        file[bs + 4 * i..bs + 4 * i + 4].copy_from_slice(&e);
    }
    for (j, w) in dir_words.iter().enumerate() {
        let p = 2 * bs + 4 * j;
        file[p..p + 4].copy_from_slice(&w.to_le_bytes());
    }
    file
}

#[test]
fn directory_with_one_stream_decodes() {
    // stream count 1, one stream of 600 bytes in blocks 7 and 9
    let file = msf_file_512(&[1, 600, 7, 9]);
    let mut src = Source::new(file);
    let msf = MSF::load(&mut src).unwrap();
    assert_eq!(msf.sd.num_streams, 1);
    assert_eq!(msf.sd.stream_sizes, vec![600]);
    assert_eq!(msf.sd.stream_blocks, vec![vec![7, 9]]);
    assert_eq!(msf.block_size(), 512);
}

#[test]
fn directory_filling_its_blocks_exactly_decodes() {
    // 1 stream-count word + 127 byte lengths fill the 128 words of one
    // 512-byte block exactly; no further indirection block is needed.
    let mut words = vec![127u32];
    words.extend(std::iter::repeat(0u32).take(127));
    let file = msf_file_512(&words);
    let mut src = Source::new(file);
    let msf = MSF::load(&mut src).unwrap();
    assert_eq!(msf.sd.num_streams, 127);
    assert!(msf.sd.stream_sizes.iter().all(|&s| s == 0));
    assert!(msf.sd.stream_blocks.iter().all(|b| b.is_empty()));
}

#[test]
fn directory_refills_exactly_at_block_boundary() {
    // The 128 words of the first directory block end right after the last
    // byte length; the first stream's block index must then be read from
    // the start of the second indirection block. The two directory blocks
    // sit in reverse physical order (3 then 2), so reading on past the
    // first block's end instead of refilling would yield other bytes.
    let bs = 512usize;
    let num_blocks = 4usize;
    let ndb = (130 * 4) as u32; // 130 words span two 512-byte blocks
    let mut file = superblock_bytes(512, 1, num_blocks as u32, ndb, 1);
    file.resize(num_blocks * bs, 0);
    // indirection table in block 1: the directory's bytes are in 3, then 2
    file[bs..bs + 4].copy_from_slice(&3u32.to_le_bytes());
    file[bs + 4..bs + 8].copy_from_slice(&2u32.to_le_bytes());
    // first directory block (physical block 3): count 127, size 600, 126 zeros
    let mut words1 = vec![127u32, 600];
    words1.extend(std::iter::repeat(0u32).take(126));
    for (j, w) in words1.iter().enumerate() {
        file[3 * bs + 4 * j..3 * bs + 4 * j + 4].copy_from_slice(&w.to_le_bytes());
    }
    // second directory block (physical block 2): stream 0's block list
    file[2 * bs..2 * bs + 4].copy_from_slice(&41u32.to_le_bytes());
    file[2 * bs + 4..2 * bs + 8].copy_from_slice(&43u32.to_le_bytes());
    let mut src = Source::new(file);
    let msf = MSF::load(&mut src).unwrap();
    assert_eq!(msf.sd.num_streams, 127);
    assert_eq!(msf.sd.stream_sizes[0], 600);
    assert_eq!(msf.sd.stream_blocks[0], vec![41, 43]);
}

#[test]
fn directory_with_too_few_indirection_blocks_fails() {
    // The directory claims 4 bytes, one indirection block, but its stream
    // count asks for 129 words: the refill finds no second block.
    let bs = 512usize;
    let mut file = superblock_bytes(512, 1, 4, 4, 1);
    file.resize(4 * bs, 0);
    file[bs..bs + 4].copy_from_slice(&2u32.to_le_bytes());
    file[2 * bs..2 * bs + 4].copy_from_slice(&128u32.to_le_bytes());
    let mut src = Source::new(file);
    assert_eq!(
        match MSF::load(&mut src) {
            Err(e) => e,
            Ok(_) => panic!("decode should fail"),
        },
        Error::StreamDirectoryTooSmall
    );
}

/// A file whose single stream spans three non-contiguous 512-byte blocks.
fn file_with_stream(content_blocks: &[(u32, [u8; 512])], stream_len: u32) -> (Vec<u8>, MSF) {
    let bs = 512usize;
    let blocks: Vec<u32> = content_blocks.iter().map(|(b, _)| *b).collect();
    let mut words = vec![1u32, stream_len];
    words.extend(&blocks);
    let max_block = blocks.iter().copied().max().unwrap_or(2) as usize;
    let num_blocks = max_block + 1;
    let ndb = (words.len() * 4) as u32;
    let mut file = superblock_bytes(512, 1, num_blocks as u32, ndb, 1);
    file.resize(num_blocks * bs, 0);
    file[bs..bs + 4].copy_from_slice(&2u32.to_le_bytes());
    for (j, w) in words.iter().enumerate() {
        let p = 2 * bs + 4 * j;
        file[p..p + 4].copy_from_slice(&w.to_le_bytes());
    }
    for (b, content) in content_blocks {
        let p = *b as usize * bs;
        file[p..p + bs].copy_from_slice(content);
    }
    let mut src = Source::new(file.clone());
    let msf = MSF::load(&mut src).unwrap();
    (file, msf)
}

fn patterned_block(seed: u8) -> [u8; 512] {
    let mut b = [0u8; 512];
    for (i, x) in b.iter_mut().enumerate() {
        *x = seed.wrapping_add((i % 251) as u8);
    }
    b
}

#[test]
fn read_round_trips_block_concatenation() {
    let b1 = patterned_block(3);
    let b2 = patterned_block(101);
    let b3 = patterned_block(207);
    let stream_len = 512 * 2 + 100;
    let (file, msf) = file_with_stream(&[(5, b1), (3, b2), (6, b3)], stream_len);
    let mut expected = Vec::new();
    expected.extend_from_slice(&b1);
    expected.extend_from_slice(&b2);
    expected.extend_from_slice(&b3[..100]);

    let mut sr = MSFStreamReader::new(&msf, 0).unwrap();
    let got = sr.read(&file, &msf, stream_len as usize).unwrap();
    assert_eq!(got, expected);

    // Two reads split mid-block agree with the single read.
    let mut sr2 = MSFStreamReader::new(&msf, 0).unwrap();
    let first = sr2.read(&file, &msf, 700).unwrap();
    let second = sr2.read(&file, &msf, stream_len as usize - 700).unwrap();
    let mut joined = first;
    joined.extend(second);
    assert_eq!(joined, expected);
}

#[test]
fn seek_then_read_agrees_with_longer_read() {
    let b1 = patterned_block(9);
    let b2 = patterned_block(77);
    let (file, msf) = file_with_stream(&[(4, b1), (3, b2)], 1024);
    for &(k, n) in &[(0usize, 10usize), (511, 2), (512, 512), (700, 100), (1000, 24)] {
        let mut sr = MSFStreamReader::new(&msf, 0).unwrap();
        let whole = sr.read(&file, &msf, k + n).unwrap();
        let mut sr2 = MSFStreamReader::new(&msf, 0).unwrap();
        assert_eq!(sr2.seek(&msf, SeekFrom::Start(k as u64)).unwrap(), k as u64);
        let tail = sr2.read(&file, &msf, n).unwrap();
        assert_eq!(tail, whole[k..]);
    }
}

#[test]
fn out_of_bounds_reads_and_seeks_fail_without_truncating() {
    let b1 = patterned_block(1);
    let (file, msf) = file_with_stream(&[(3, b1)], 512);
    let mut sr = MSFStreamReader::new(&msf, 0).unwrap();
    // capacity is one block: 512 bytes
    assert_eq!(sr.read(&file, &msf, 513), Err(Error::UnexpectedEndOfStream));
    assert_eq!(sr.seek(&msf, SeekFrom::Start(513)), Err(Error::UnexpectedEndOfStream));
    // a failed read moves nothing: the whole stream is still there
    assert_eq!(sr.read(&file, &msf, 512).unwrap(), b1.to_vec());
    // reading past the cursor's remaining range fails too
    let mut sr2 = MSFStreamReader::new(&msf, 0).unwrap();
    sr2.seek(&msf, SeekFrom::Start(500)).unwrap();
    assert_eq!(sr2.read(&file, &msf, 13), Err(Error::UnexpectedEndOfStream));
    // seeking to the very end is allowed; reading there is not
    let mut sr3 = MSFStreamReader::new(&msf, 0).unwrap();
    sr3.seek(&msf, SeekFrom::Start(512)).unwrap();
    assert_eq!(sr3.read(&file, &msf, 1), Err(Error::UnexpectedEndOfStream));
    assert!(sr3.read(&file, &msf, 0).unwrap().is_empty());
}

#[test]
fn relative_and_from_end_seeks_are_unsupported() {
    let b1 = patterned_block(8);
    let (_file, msf) = file_with_stream(&[(3, b1)], 512);
    let mut sr = MSFStreamReader::new(&msf, 0).unwrap();
    assert_eq!(sr.seek(&msf, SeekFrom::Current(4)), Err(Error::Unsupported));
    assert_eq!(sr.seek(&msf, SeekFrom::End(-4)), Err(Error::Unsupported));
}

#[test]
fn stream_bounds_are_checked_on_open_and_change() {
    let b1 = patterned_block(2);
    let (_file, msf) = file_with_stream(&[(3, b1)], 512);
    assert!(MSFStreamReader::new(&msf, 0).is_ok());
    assert!(matches!(
        MSFStreamReader::new(&msf, 1),
        Err(Error::StreamNumberOutOfBounds)
    ));
    let mut sr = MSFStreamReader::new(&msf, 0).unwrap();
    assert_eq!(sr.change_stream(&msf, 1), Err(Error::StreamNumberOutOfBounds));
    assert_eq!(sr.change_stream(&msf, 0), Ok(()));
}

#[test]
fn block_index_outside_the_file_fails_the_read() {
    // stream 0 claims block 40, far past the 4-block file
    let file = msf_file_512(&[1, 100, 40]);
    let mut src = Source::new(file.clone());
    let msf = MSF::load(&mut src).unwrap();
    let mut sr = MSFStreamReader::new(&msf, 0).unwrap();
    assert_eq!(sr.read(&file, &msf, 100), Err(Error::BlockNumberOutOfBounds));
}
