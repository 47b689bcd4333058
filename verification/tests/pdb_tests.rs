use pdbmsf::msf::MSF;
use pdbmsf::pdb::hashtable::{BitVector, Error as HtError, SerializedHashTable};
use pdbmsf::pdb::pdbstream::{
    Error as PsError, NamedStreamMap, PDBFeatureCodeList, PDBStreamHeader, PDBStreamVersion,
    PdbStream,
};
use pdbmsf::pdb::{Error as PdbError, PDB};
use pdbmsf::util::Source;

fn push_u32(v: &mut Vec<u8>, x: u32) {
    v.extend_from_slice(&x.to_le_bytes());
}

fn bitvec_bytes(flags: &[u8]) -> Vec<u8> {
    assert!(flags.len() % 4 == 0);
    let mut v = Vec::new();
    push_u32(&mut v, (flags.len() / 4) as u32);
    v.extend_from_slice(flags);
    v
}

#[test]
fn bitvector_all_zero_has_no_set_indices() {
    let mut src = Source::new(bitvec_bytes(&[0, 0, 0, 0, 0, 0, 0, 0]));
    let bv = BitVector::load(&mut src).unwrap();
    assert_eq!(bv.word_count, 2);
    assert_eq!(bv.words.len(), 8);
    assert!(bv.get_set_indices().is_empty());
}

#[test]
fn bitvector_all_ones_lists_every_position() {
    let mut src = Source::new(bitvec_bytes(&[0xFF; 8]));
    let bv = BitVector::load(&mut src).unwrap();
    let expected: Vec<u32> = (0..64).collect();
    assert_eq!(bv.get_set_indices(), expected);
}

#[test]
fn bitvector_indices_follow_byte_and_bit_order() {
    // byte 0 = 0b0000_0101 -> bits 0 and 2; byte 2 = 0b1000_0000 -> bit 23
    let mut src = Source::new(bitvec_bytes(&[0b0000_0101, 0, 0b1000_0000, 0]));
    let bv = BitVector::load(&mut src).unwrap();
    assert_eq!(bv.get_set_indices(), vec![0, 2, 23]);
}

#[test]
fn bitvector_short_input_fails() {
    let mut v = Vec::new();
    push_u32(&mut v, 3); // claims 12 bytes, provides 2
    v.extend_from_slice(&[1, 2]);
    let mut src = Source::new(v);
    assert!(matches!(BitVector::load(&mut src), Err(HtError::Consume)));
}

fn hashtable_bytes(
    size: u32,
    present: &[u8],
    deleted: &[u8],
    entries: &[(u32, u32)],
) -> Vec<u8> {
    let mut v = Vec::new();
    push_u32(&mut v, size);
    push_u32(&mut v, entries.len() as u32);
    v.extend(bitvec_bytes(present));
    v.extend(bitvec_bytes(deleted));
    for &(k, val) in entries {
        push_u32(&mut v, k);
        push_u32(&mut v, val);
    }
    v
}

#[test]
fn hashtable_lookup_returns_the_matching_present_slot() {
    // slots 0 and 2 present; keys 10 and 30
    let bytes = hashtable_bytes(2, &[0b101, 0, 0, 0], &[0, 0, 0, 0], &[(10, 100), (99, 0), (30, 300)]);
    let mut src = Source::new(bytes);
    let ht = SerializedHashTable::load(&mut src).unwrap();
    assert_eq!(ht.size, 2);
    assert_eq!(ht.capacity, 3);
    assert_eq!(ht.get(10), Ok(100));
    assert_eq!(ht.get(30), Ok(300));
    // key 99 sits in a slot that is not present
    assert_eq!(ht.get(99), Err(HtError::HashTableEntryNotFound(99)));
    assert_eq!(ht.get(7), Err(HtError::HashTableEntryNotFound(7)));
}

#[test]
fn hashtable_capacity_zero_always_misses() {
    let bytes = hashtable_bytes(0, &[0, 0, 0, 0], &[0, 0, 0, 0], &[]);
    let mut src = Source::new(bytes);
    let ht = SerializedHashTable::load(&mut src).unwrap();
    assert_eq!(ht.get(0), Err(HtError::HashTableEntryNotFound(0)));
    assert_eq!(ht.get(42), Err(HtError::HashTableEntryNotFound(42)));
}

#[test]
fn hashtable_present_bit_outside_capacity_is_corruption() {
    // bit 5 set, but only 1 slot
    let bytes = hashtable_bytes(1, &[0b10_0000, 0, 0, 0], &[0, 0, 0, 0], &[(1, 2)]);
    let mut src = Source::new(bytes);
    let ht = SerializedHashTable::load(&mut src).unwrap();
    assert_eq!(ht.get(1), Err(HtError::HashTableInvalid));
}

#[test]
fn hashtable_truncated_slots_fail_to_load() {
    let mut bytes = hashtable_bytes(1, &[1, 0, 0, 0], &[0, 0, 0, 0], &[(1, 2)]);
    bytes.truncate(bytes.len() - 3);
    let mut src = Source::new(bytes);
    assert!(matches!(
        SerializedHashTable::load(&mut src),
        Err(HtError::Consume)
    ));
}

fn header_bytes(version: u32) -> Vec<u8> {
    let mut v = Vec::new();
    push_u32(&mut v, version);
    push_u32(&mut v, 0xAABBCCDD);
    push_u32(&mut v, 1);
    v.extend_from_slice(&0x0102030405060708090A0B0C0D0E0F10u128.to_le_bytes());
    v
}

#[test]
fn header_accepts_vc70_and_exposes_fields() {
    let mut src = Source::new(header_bytes(20000404));
    let h = PDBStreamHeader::load(&mut src).unwrap();
    assert_eq!(h.version, 20000404);
    assert_eq!(h.signature, 0xAABBCCDD);
    assert_eq!(h.age, 1);
    assert_eq!(h.unique_id, 0x0102030405060708090A0B0C0D0E0F10);
    assert!(h.check_version(PDBStreamVersion::VC70));
    assert!(!h.check_version(PDBStreamVersion::VC98));
}

#[test]
fn header_rejects_other_versions() {
    for &v in &[19941610u32, 19970604, 20140508, 0] {
        let mut src = Source::new(header_bytes(v));
        assert!(matches!(
            PDBStreamHeader::load(&mut src),
            Err(PsError::InvalidVersion)
        ));
    }
}

#[test]
fn feature_code_list_accepts_known_codes_only() {
    for &v in &[20091201u32, 20140508, 0x4D544F4E, 0x494E494D] {
        let mut bytes = Vec::new();
        push_u32(&mut bytes, v);
        let mut src = Source::new(bytes);
        let l = PDBFeatureCodeList::load(&mut src).unwrap();
        assert!(l.codes.is_empty());
    }
    let mut bytes = Vec::new();
    push_u32(&mut bytes, 123);
    let mut src = Source::new(bytes);
    assert!(matches!(
        PDBFeatureCodeList::load(&mut src),
        Err(PsError::UnkownFeatureCode(123))
    ));
}

/// String table "/names\0/LinkInfo\0" and a hash table mapping table
/// position 0 to stream 5 and position 1 to stream 7.
fn named_stream_map_bytes() -> Vec<u8> {
    let table = b"/names\0/LinkInfo\0";
    let mut v = Vec::new();
    push_u32(&mut v, table.len() as u32);
    v.extend_from_slice(table);
    v.extend(hashtable_bytes(2, &[0b11, 0, 0, 0], &[0, 0, 0, 0], &[(0, 5), (1, 7)]));
    v
}

#[test]
fn named_stream_map_resolves_names_by_table_position() {
    let mut src = Source::new(named_stream_map_bytes());
    let m = NamedStreamMap::load(&mut src).unwrap();
    assert_eq!(m.str_len, 17);
    assert_eq!(m.strings, vec![b"/names".to_vec(), b"/LinkInfo".to_vec()]);
    assert_eq!(m.get_stream_number(&b"/names".to_vec()), Ok(5));
    assert_eq!(m.get_stream_number(&b"/LinkInfo".to_vec()), Ok(7));
    assert_eq!(
        m.get_stream_number(&b"/absent".to_vec()),
        Err(PsError::StreamMapKeyNotFound(b"/absent".to_vec()))
    );
}

fn info_stream_bytes(version: u32) -> Vec<u8> {
    let mut v = header_bytes(version);
    v.extend(named_stream_map_bytes());
    v
}

#[test]
fn pdb_stream_decodes_header_then_map() {
    let mut src = Source::new(info_stream_bytes(20000404));
    let ps = PdbStream::load(&mut src).unwrap();
    assert_eq!(ps.hdr.age, 1);
    assert_eq!(ps.get_stream_number(&b"/LinkInfo".to_vec()), Ok(7));
}

const MAGIC: &[u8; 32] = b"Microsoft C/C++ MSF 7.00\r\n\x1aDS\x00\x00\x00";

/// A whole synthetic MSF file with block size 4096: block 0 superblock,
/// block 1 the directory, block 2 the indirection table, block 3 the PDB
/// Info stream (stream index 1).
fn msf_with_info_stream(version: u32) -> Vec<u8> {
    let bs = 4096usize;
    let info = info_stream_bytes(version);
    let mut file = MAGIC.to_vec();
    push_u32(&mut file, bs as u32); // block size
    push_u32(&mut file, 1); // free block map
    push_u32(&mut file, 4); // block count
    push_u32(&mut file, 16); // directory bytes: 4 words
    push_u32(&mut file, 0); // reserved
    push_u32(&mut file, 2); // block map address
    file.resize(4 * bs, 0);
    // directory in block 1: 2 streams; stream 0 empty, stream 1 the info
    // stream, stored in block 3
    let dir = {
        let mut d = Vec::new();
        push_u32(&mut d, 2);
        push_u32(&mut d, 0);
        push_u32(&mut d, info.len() as u32);
        push_u32(&mut d, 3);
        d
    };
    file[bs..bs + dir.len()].copy_from_slice(&dir);
    // indirection table in block 2: the directory lives in block 1
    file[2 * bs..2 * bs + 4].copy_from_slice(&1u32.to_le_bytes());
    // the info stream's bytes in block 3
    file[3 * bs..3 * bs + info.len()].copy_from_slice(&info);
    file
}

#[test]
fn end_to_end_resolves_link_info_stream() {
    let file = msf_with_info_stream(20000404);
    let mut src = Source::new(file.clone());
    let msf = MSF::load(&mut src).unwrap();
    assert_eq!(msf.sd.num_streams, 2);
    let pdb = PDB::pdb_stream(&file, &msf).unwrap();
    let ps = match &pdb.pdb_strm {
        Some(ps) => ps,
        None => panic!("info stream should be loaded"),
    };
    assert_eq!(ps.get_stream_number(&b"/LinkInfo".to_vec()), Ok(7));
    assert_eq!(
        ps.get_stream_number(&b"/absent".to_vec()),
        Err(PsError::StreamMapKeyNotFound(b"/absent".to_vec()))
    );
}

#[test]
fn end_to_end_rejects_vc98_before_touching_the_map() {
    let file = msf_with_info_stream(19970604);
    let mut src = Source::new(file.clone());
    let msf = MSF::load(&mut src).unwrap();
    assert_eq!(
        match PDB::pdb_stream(&file, &msf) {
            Err(e) => e,
            Ok(_) => panic!("decode should fail"),
        },
        PdbError::PdbStreamError(PsError::InvalidVersion)
    );
}

#[test]
fn named_stream_map_with_truncated_hash_table_reports_it() {
    let mut bytes = named_stream_map_bytes();
    bytes.truncate(bytes.len() - 5);
    let mut src = Source::new(bytes);
    assert!(matches!(
        NamedStreamMap::load(&mut src),
        Err(PsError::HashTableError(HtError::Consume))
    ));
}

#[test]
fn pdb_stream_with_truncated_header_is_a_consume_error() {
    let mut src = Source::new(header_bytes(20000404)[..20].to_vec());
    assert!(matches!(PdbStream::load(&mut src), Err(PsError::Consume)));
}

#[test]
fn pdb_stream_needs_stream_one() {
    // a container whose directory lists a single stream has no Info stream
    let bs = 4096usize;
    let mut file = MAGIC.to_vec();
    push_u32(&mut file, bs as u32);
    push_u32(&mut file, 1);
    push_u32(&mut file, 3);
    push_u32(&mut file, 8); // 2 directory words
    push_u32(&mut file, 0);
    push_u32(&mut file, 2);
    file.resize(3 * bs, 0);
    let dir = {
        let mut d = Vec::new();
        push_u32(&mut d, 1); // one stream
        push_u32(&mut d, 0); // of length 0
        d
    };
    file[bs..bs + dir.len()].copy_from_slice(&dir);
    file[2 * bs..2 * bs + 4].copy_from_slice(&1u32.to_le_bytes());
    let mut src = Source::new(file.clone());
    let msf = MSF::load(&mut src).unwrap();
    assert_eq!(
        match PDB::pdb_stream(&file, &msf) {
            Err(e) => e,
            Ok(_) => panic!("there is no stream 1"),
        },
        PdbError::BadStream(0, pdbmsf::msf::Error::StreamNumberOutOfBounds)
    );
}

#[test]
fn old_directory_needs_stream_zero() {
    let file = msf_with_info_stream(20000404);
    let mut src = Source::new(file.clone());
    let msf = MSF::load(&mut src).unwrap();
    let pdb = PDB::old_directory(&file, &msf).unwrap();
    assert!(pdb.pdb_strm.is_none());
}
