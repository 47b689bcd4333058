//! The PDB Info stream: fixed header (version, signature, age, GUID), the
//! named stream map that resolves a stream name to a stream index, and the
//! trailing feature codes.

use crate::pdb::hashtable;
use crate::pdb::hashtable::{ht_end, ht_get_from, ht_matches, ht_ok, SerializedHashTable};
use crate::util::{le128_at, le32_at, Source};
use vstd::prelude::*;

verus! {

/// Everything that can go wrong while decoding the PDB Info stream.
#[derive(Debug, PartialEq, Eq)]
pub enum Error {
    Unknown,
    /// A field could not be read: the source ended before it.
    Consume,
    /// The MSF stream could not be opened or read.
    BadStream(u32, crate::msf::Error),
    /// The header's version is not the supported one.
    InvalidVersion,
    /// The named stream map's hash table could not be decoded or queried.
    HashTableError(hashtable::Error),
    /// The name is not in the stream map's string table.
    StreamMapKeyNotFound(Vec<u8>),
    /// The feature code is not a known one.
    UnkownFeatureCode(u32),
}

/// The known PDB stream format versions.
#[derive(Debug, Clone, Copy)]
pub enum PDBStreamVersion {
    VC2,
    VC4,
    VC41,
    VC50,
    VC98,
    VC70Dep,
    VC70,
    VC80,
    VC110,
    VC140,
}

/// The on-disk code of each format version.
pub open spec fn spec_version_code(v: PDBStreamVersion) -> u32 {
    match v {
        PDBStreamVersion::VC2 => 19941610,
        PDBStreamVersion::VC4 => 19950623,
        PDBStreamVersion::VC41 => 19950814,
        PDBStreamVersion::VC50 => 19960307,
        PDBStreamVersion::VC98 => 19970604,
        PDBStreamVersion::VC70Dep => 19990604,
        PDBStreamVersion::VC70 => 20000404,
        PDBStreamVersion::VC80 => 20030901,
        PDBStreamVersion::VC110 => 20091201,
        PDBStreamVersion::VC140 => 20140508,
    }
}

/// The on-disk code of each format version.
pub fn version_code(v: PDBStreamVersion) -> (r: u32)
    ensures
        r == spec_version_code(v),
{
    match v {
        PDBStreamVersion::VC2 => 19941610,
        PDBStreamVersion::VC4 => 19950623,
        PDBStreamVersion::VC41 => 19950814,
        PDBStreamVersion::VC50 => 19960307,
        PDBStreamVersion::VC98 => 19970604,
        PDBStreamVersion::VC70Dep => 19990604,
        PDBStreamVersion::VC70 => 20000404,
        PDBStreamVersion::VC80 => 20030901,
        PDBStreamVersion::VC110 => 20091201,
        PDBStreamVersion::VC140 => 20140508,
    }
}

/// The fixed 28-byte header at the front of the PDB Info stream.
#[derive(Debug)]
pub struct PDBStreamHeader {
    pub version: u32,
    pub signature: u32,
    pub age: u32,
    pub unique_id: u128,
}

/// When the header at `p` decodes without error: all 28 bytes are there
/// and the version is the supported one.
pub open spec fn hdr_ok(d: Seq<u8>, p: int) -> bool {
    &&& p + 28 <= d.len()
    &&& le32_at(d, p) == spec_version_code(PDBStreamVersion::VC70)
}

/// How the decoded header's fields relate to the bytes at `p`.
pub open spec fn hdr_matches(h: PDBStreamHeader, d: Seq<u8>, p: int) -> bool {
    &&& h.version == le32_at(d, p)
    &&& h.signature == le32_at(d, p + 4)
    &&& h.age == le32_at(d, p + 8)
    &&& h.unique_id == le128_at(d, p + 12)
}

impl PDBStreamHeader {
    /// Decodes the fixed header and validates its version: anything but
    /// the VC70 code is refused before the named stream map is touched.
    pub fn load(src: &mut Source) -> (r: Result<PDBStreamHeader, Error>)
        ensures
            final(src).data@ == old(src).data@,
            ({
                let d = old(src).data@;
                let p = old(src).pos as int;
                if p + 28 > d.len() {
                    r == Err::<PDBStreamHeader, Error>(Error::Consume)
                } else if le32_at(d, p) != spec_version_code(PDBStreamVersion::VC70) {
                    r == Err::<PDBStreamHeader, Error>(Error::InvalidVersion)
                } else {
                    &&& r matches Ok(h)
                    &&& hdr_matches(h, d, p)
                    &&& final(src).pos == p + 28
                }
            }),
    {
        let version = match src.read_u32() {
            Some(v) => v,
            None => {
                return Err(Error::Consume);
            },
        };
        let signature = match src.read_u32() {
            Some(v) => v,
            None => {
                return Err(Error::Consume);
            },
        };
        let age = match src.read_u32() {
            Some(v) => v,
            None => {
                return Err(Error::Consume);
            },
        };
        let unique_id = match src.read_u128() {
            Some(v) => v,
            None => {
                return Err(Error::Consume);
            },
        };
        let ret = PDBStreamHeader { version, signature, age, unique_id };
        if !ret.check_version(PDBStreamVersion::VC70) {
            return Err(Error::InvalidVersion);
        }
        Ok(ret)
    }

    /// Whether the header's version equals the given version's code.
    pub fn check_version(&self, other_ver: PDBStreamVersion) -> (r: bool)
        ensures
            r == (self.version == spec_version_code(other_ver)),
    {
        self.version == version_code(other_ver)
    }
}

/// The known feature codes.
#[derive(Debug, PartialEq)]
pub enum PDBFeatureCode {
    VC110,
    VC140,
    NoTypeMerge,
    MinimalDebugInfo,
}

/// Whether `v` is the on-disk code of some known feature.
pub open spec fn known_feature_code(v: u32) -> bool {
    v == 20091201 || v == 20140508 || v == 0x4D544F4E || v == 0x494E494D
}

/// The feature codes trailing the named stream map.
#[derive(Debug)]
pub struct PDBFeatureCodeList {
    pub codes: Vec<PDBFeatureCode>,
}

impl PDBFeatureCodeList {
    /// Reads one feature-code field and refuses an unknown code.
    pub fn load(src: &mut Source) -> (r: Result<PDBFeatureCodeList, Error>)
        ensures
            final(src).data@ == old(src).data@,
            ({
                let d = old(src).data@;
                let p = old(src).pos as int;
                if p + 4 > d.len() {
                    r == Err::<PDBFeatureCodeList, Error>(Error::Consume)
                } else if !known_feature_code(le32_at(d, p) as u32) {
                    r == Err::<PDBFeatureCodeList, Error>(
                        Error::UnkownFeatureCode(le32_at(d, p) as u32),
                    )
                } else {
                    &&& r matches Ok(l)
                    &&& l.codes@.len() == 0
                    &&& final(src).pos == p + 4
                }
            }),
    {
        let val = match src.read_u32() {
            Some(v) => v,
            None => {
                return Err(Error::Consume);
            },
        };
        if val != 20091201 && val != 20140508 && val != 0x4D544F4E && val != 0x494E494D {
            return Err(Error::UnkownFeatureCode(val));
        }
        Ok(PDBFeatureCodeList { codes: Vec::new() })
    }
}

/// The string table's bytes split on NUL separators, dropping any
/// unterminated trailing bytes; `cur` carries the name read so far.
pub open spec fn split_names(s: Seq<u8>, cur: Seq<u8>) -> Seq<Seq<u8>>
    decreases s.len(),
{
    if s.len() == 0 {
        seq![]
    } else if s[0] == 0 {
        seq![cur] + split_names(s.drop_first(), seq![])
    } else {
        split_names(s.drop_first(), cur.push(s[0]))
    }
}

/// The ordered names of a string table: its NUL-terminated segments.
pub open spec fn nul_names(s: Seq<u8>) -> Seq<Seq<u8>> {
    split_names(s, seq![])
}

/// The name table never holds more names than separators, hence bytes.
pub proof fn lemma_split_names_len(s: Seq<u8>, cur: Seq<u8>)
    ensures
        split_names(s, cur).len() <= s.len(),
    decreases s.len(),
{
    if s.len() == 0 {
    } else if s[0] == 0 {
        lemma_split_names_len(s.drop_first(), seq![]);
    } else {
        lemma_split_names_len(s.drop_first(), cur.push(s[0]));
    }
}

/// When the named stream map's own string table at `p` is all there.
pub open spec fn nsm_str_ok(d: Seq<u8>, p: int) -> bool {
    &&& p + 4 <= d.len()
    &&& p + 4 + le32_at(d, p) <= d.len()
}

/// When the whole named stream map at `p` decodes without error.
pub open spec fn nsm_ok(d: Seq<u8>, p: int) -> bool {
    &&& nsm_str_ok(d, p)
    &&& ht_ok(d, p + 4 + le32_at(d, p))
}

/// The error the named stream map decoder reports when `!nsm_ok(d, p)`.
pub open spec fn nsm_err(d: Seq<u8>, p: int) -> Error {
    if !nsm_str_ok(d, p) {
        Error::Consume
    } else {
        Error::HashTableError(hashtable::Error::Consume)
    }
}

/// One past the last byte of the named stream map at `p`.
pub open spec fn nsm_end(d: Seq<u8>, p: int) -> int {
    ht_end(d, p + 4 + le32_at(d, p))
}

/// How the decoded map's fields relate to the bytes at `p`.
pub open spec fn nsm_matches(m: NamedStreamMap, d: Seq<u8>, p: int) -> bool {
    &&& m.str_len == le32_at(d, p)
    &&& m.strings@.map_values(|v: Vec<u8>| v@) == nul_names(
        d.subrange(p + 4, p + 4 + le32_at(d, p)),
    )
    &&& ht_matches(m.hash_table, d, p + 4 + le32_at(d, p))
}

/// A NUL-separated string table followed by a hash table whose key is a
/// name's position in the table and whose value is a stream index.
#[derive(Debug)]
pub struct NamedStreamMap {
    pub str_len: u32,
    pub strings: Vec<Vec<u8>>,
    pub hash_table: SerializedHashTable<u32>,
}

/// The first position in `names`, at or after `i`, holding `name`;
/// `names.len()` when there is none.
pub open spec fn first_match(names: Seq<Seq<u8>>, name: Seq<u8>, i: int) -> int
    decreases names.len() - i,
{
    if i < 0 || i >= names.len() {
        names.len() as int
    } else if names[i] == name {
        i
    } else {
        first_match(names, name, i + 1)
    }
}

/// Byte-for-byte equality of two byte strings.
fn bytes_eq(a: &Vec<u8>, b: &Vec<u8>) -> (r: bool)
    ensures
        r == (a@ == b@),
{
    if a.len() != b.len() {
        proof {
            assert(a@ != b@);
        }
        return false;
    }
    let mut i: usize = 0;
    while i < a.len()
        invariant
            i <= a@.len(),
            a@.len() == b@.len(),
            forall|t: int| 0 <= t < i ==> a@[t] == b@[t],
        decreases a@.len() - i,
    {
        if a[i] != b[i] {
            return false;
        }
        i = i + 1;
    }
    proof {
        assert(a@ =~= b@);
    }
    true
}

impl NamedStreamMap {
    /// Decodes the string table's byte length, its bytes split on NUL into
    /// ordered names, then the hash table.
    pub fn load(src: &mut Source) -> (r: Result<NamedStreamMap, Error>)
        ensures
            final(src).data@ == old(src).data@,
            ({
                let d = old(src).data@;
                let p = old(src).pos as int;
                if nsm_ok(d, p) {
                    &&& r matches Ok(m)
                    &&& nsm_matches(m, d, p)
                    &&& m.strings@.len() <= 0xFFFF_FFFF
                    &&& final(src).pos == nsm_end(d, p)
                } else {
                    r == Err::<NamedStreamMap, Error>(nsm_err(d, p))
                }
            }),
    {
        let ghost d = old(src).data@;
        let ghost p = old(src).pos as int;
        let str_len = match src.read_u32() {
            Some(v) => v,
            None => {
                return Err(Error::Consume);
            },
        };
        let bytes = match src.read_bytes(str_len as usize) {
            Some(v) => v,
            None => {
                return Err(Error::Consume);
            },
        };
        let ghost table = d.subrange(p + 4, p + 4 + str_len);
        let mut strings: Vec<Vec<u8>> = Vec::new();
        let mut cur: Vec<u8> = Vec::new();
        let mut i: usize = 0;
        proof {
            assert(bytes@.skip(0) =~= bytes@);
        }
        while i < str_len as usize
            invariant
                i <= str_len,
                bytes@ == table,
                table.len() == str_len,
                strings@.len() <= i,
                strings@.map_values(|v: Vec<u8>| v@) + split_names(table.skip(i as int), cur@)
                    =~= nul_names(table),
            decreases str_len - i,
        {
            let ghost old_strings = strings@;
            let ghost old_cur = cur@;
            let b = bytes[i];
            if b == 0 {
                strings.push(cur);
                cur = Vec::new();
            } else {
                cur.push(b);
            }
            proof {
                assert(table.skip(i as int).drop_first() =~= table.skip(i + 1));
                assert(table.skip(i as int)[0] == table[i as int]);
                if b == 0 {
                    assert(split_names(table.skip(i as int), old_cur) == seq![old_cur]
                        + split_names(table.skip(i + 1), seq![]));
                    assert(strings@.map_values(|v: Vec<u8>| v@) =~= old_strings.map_values(
                        |v: Vec<u8>| v@,
                    ).push(old_cur));
                    assert(cur@ =~= Seq::<u8>::empty());
                    assert(strings@.map_values(|v: Vec<u8>| v@) + split_names(
                        table.skip(i + 1),
                        cur@,
                    ) =~= old_strings.map_values(|v: Vec<u8>| v@) + split_names(
                        table.skip(i as int),
                        old_cur,
                    ));
                } else {
                    assert(split_names(table.skip(i as int), old_cur) == split_names(
                        table.skip(i + 1),
                        old_cur.push(b),
                    ));
                }
            }
            i = i + 1;
        }
        let hash_table = match SerializedHashTable::load(src) {
            Ok(t) => t,
            Err(e) => {
                return Err(Error::HashTableError(e));
            },
        };
        proof {
            assert(split_names(table.skip(str_len as int), cur@) =~= Seq::<Seq<u8>>::empty());
            lemma_split_names_len(table, seq![]);
        }
        Ok(NamedStreamMap { str_len, strings, hash_table })
    }

    /// Resolves a name to a stream index: the name's position in the table
    /// becomes the hash-table key, and the looked-up value is the index.
    /// An absent name is the name-not-found outcome; hash-table errors
    /// pass through wrapped.
    pub fn get_stream_number(&self, name: &Vec<u8>) -> (r: Result<u32, Error>)
        requires
            self.strings@.len() <= 0xFFFF_FFFF,
        ensures
            ({
                let names = self.strings@.map_values(|v: Vec<u8>| v@);
                let fm = first_match(names, name@, 0);
                if fm >= names.len() {
                    r matches Err(e) && e matches Error::StreamMapKeyNotFound(m) && m@ == name@
                } else {
                    match ht_get_from(
                        self.hash_table.present_vec.words@,
                        self.hash_table.entries@,
                        fm as u32,
                        0,
                    ) {
                        Ok(v) => r == Ok::<u32, Error>(v),
                        Err(e) => r == Err::<u32, Error>(Error::HashTableError(e)),
                    }
                }
            }),
    {
        let ghost names = self.strings@.map_values(|v: Vec<u8>| v@);
        let mut i: usize = 0;
        while i < self.strings.len()
            invariant
                i <= self.strings@.len(),
                names == self.strings@.map_values(|v: Vec<u8>| v@),
                self.strings@.len() <= 0xFFFF_FFFF,
                first_match(names, name@, 0) == first_match(names, name@, i as int),
            decreases self.strings@.len() - i,
        {
            if bytes_eq(&self.strings[i], name) {
                proof {
                    assert(names[i as int] == name@);
                    assert(first_match(names, name@, i as int) == i);
                }
                let key: u32 = i as u32;
                return match self.hash_table.get(key) {
                    Ok(v) => Ok(v),
                    Err(e) => Err(Error::HashTableError(e)),
                };
            }
            proof {
                assert(names[i as int] != name@);
            }
            i = i + 1;
        }
        Err(Error::StreamMapKeyNotFound(name.clone()))
    }
}

/// When the PDB Info stream at `p` decodes without error.
pub open spec fn info_ok(d: Seq<u8>, p: int) -> bool {
    &&& hdr_ok(d, p)
    &&& nsm_ok(d, p + 28)
}

/// The error the PDB Info stream decoder reports when `!info_ok(d, p)`.
pub open spec fn info_err(d: Seq<u8>, p: int) -> Error {
    if p + 28 > d.len() {
        Error::Consume
    } else if le32_at(d, p) != spec_version_code(PDBStreamVersion::VC70) {
        Error::InvalidVersion
    } else {
        nsm_err(d, p + 28)
    }
}

/// How the decoded PDB Info stream relates to the bytes at `p`.
pub open spec fn info_matches(ps: PdbStream, d: Seq<u8>, p: int) -> bool {
    &&& hdr_matches(ps.hdr, d, p)
    &&& nsm_matches(ps.stream_map, d, p + 28)
    &&& ps.stream_map.strings@.len() <= 0xFFFF_FFFF
}

/// The decoded PDB Info stream: fixed header plus named stream map.
#[derive(Debug)]
pub struct PdbStream {
    pub hdr: PDBStreamHeader,
    pub stream_map: NamedStreamMap,
}

impl PdbStream {
    /// Decodes the fixed header, then the named stream map behind it.
    pub fn load(src: &mut Source) -> (r: Result<PdbStream, Error>)
        ensures
            final(src).data@ == old(src).data@,
            ({
                let d = old(src).data@;
                let p = old(src).pos as int;
                if info_ok(d, p) {
                    &&& r matches Ok(ps)
                    &&& info_matches(ps, d, p)
                    &&& final(src).pos == nsm_end(d, p + 28)
                } else {
                    r == Err::<PdbStream, Error>(info_err(d, p))
                }
            }),
    {
        let hdr = match PDBStreamHeader::load(src) {
            Ok(h) => h,
            Err(e) => {
                return Err(e);
            },
        };
        let stream_map = match NamedStreamMap::load(src) {
            Ok(m) => m,
            Err(e) => {
                return Err(e);
            },
        };
        Ok(PdbStream { hdr, stream_map })
    }

    /// Resolves a name to a stream index through the named stream map.
    pub fn get_stream_number(&self, name: &Vec<u8>) -> (r: Result<u32, Error>)
        requires
            self.stream_map.strings@.len() <= 0xFFFF_FFFF,
        ensures
            ({
                let names = self.stream_map.strings@.map_values(|v: Vec<u8>| v@);
                let fm = first_match(names, name@, 0);
                if fm >= names.len() {
                    r matches Err(e) && e matches Error::StreamMapKeyNotFound(m) && m@ == name@
                } else {
                    match ht_get_from(
                        self.stream_map.hash_table.present_vec.words@,
                        self.stream_map.hash_table.entries@,
                        fm as u32,
                        0,
                    ) {
                        Ok(v) => r == Ok::<u32, Error>(v),
                        Err(e) => r == Err::<u32, Error>(Error::HashTableError(e)),
                    }
                }
            }),
    {
        self.stream_map.get_stream_number(name)
    }
}

} // verus!
