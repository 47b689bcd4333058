//! The PDB layer: ties the MSF container to the PDB Info stream that lives
//! in stream 1, and re-exports the decoders it is built from.

pub mod hashtable;
pub mod pdbstream;

pub use hashtable::SerializedHashTable;
pub use pdbstream::{NamedStreamMap, PDBStreamHeader, PDBStreamVersion, PdbStream};

use crate::msf;
use crate::msf::{blocks_for, stream_bytes, stream_read_ok, MSFStreamReader, MSF};
use crate::util::Source;
use vstd::prelude::*;

verus! {

/// Everything that can go wrong at the PDB layer.
#[derive(Debug, PartialEq, Eq)]
pub enum Error {
    Unknown,
    /// A field could not be read: the source ended before it.
    Consume,
    /// The MSF stream could not be opened.
    BadStream(u32, msf::Error),
    /// The header's version is not the supported one.
    InvalidVersion,
    /// The named stream map's hash table could not be decoded or queried.
    HashTableError(hashtable::Error),
    /// The name is not in the stream map's string table.
    StreamMapKeyNotFound(Vec<u8>),
    /// The PDB Info stream could not be decoded.
    PdbStreamError(pdbstream::Error),
}

/// A PDB file's decoded Info stream, when one has been loaded.
pub struct PDB {
    pub pdb_strm: Option<PdbStream>,
}

/// A stream of `size` bytes fits in the blocks its directory entry lists.
proof fn lemma_size_fits_blocks(size: u32, bs: u32)
    requires
        msf::valid_block_size(bs),
    ensures
        size <= blocks_for(size, bs) * bs,
{
    let c = blocks_for(size, bs);
    vstd::arithmetic::div_mod::lemma_fundamental_div_mod(size as int + bs - 1, bs as int);
    assert(c * bs == size + bs - 1 - ((size + bs - 1) % (bs as int)));
}

impl PDB {
    /// Reads and discards the first `0x2000` bytes of stream 0, the old
    /// directory stream; any failure of that read is ignored, as only the
    /// stream's existence is checked.
    pub fn old_directory(file: &Vec<u8>, msf: &MSF) -> (r: Result<PDB, Error>)
        requires
            msf.wf(),
        ensures
            if msf.sd.num_streams == 0 {
                r == Err::<PDB, Error>(Error::BadStream(0, msf::Error::StreamNumberOutOfBounds))
            } else {
                r matches Ok(pdb) && pdb.pdb_strm is None
            },
    {
        let mut sr = match MSFStreamReader::new(msf, 0) {
            Ok(sr) => sr,
            Err(e) => {
                return Err(Error::BadStream(0, e));
            },
        };
        let _unused = sr.read(file, msf, 0x2000);
        Ok(PDB { pdb_strm: None })
    }

    /// Decodes the PDB Info stream: opens stream 1, reads the stream's
    /// whole byte range, and decodes the header and named stream map from
    /// it.
    pub fn pdb_stream(file: &Vec<u8>, msf: &MSF) -> (r: Result<PDB, Error>)
        requires
            msf.wf(),
        ensures
            ({
                let bs = msf.sb.block_size;
                if msf.sd.num_streams <= 1 {
                    r == Err::<PDB, Error>(Error::BadStream(0, msf::Error::StreamNumberOutOfBounds))
                } else {
                    let blocks = msf.sd.stream_blocks@[1]@;
                    let len = msf.sd.stream_sizes@[1] as int;
                    if !stream_read_ok(file@, blocks, bs, 0, len) {
                        r == Err::<PDB, Error>(Error::PdbStreamError(pdbstream::Error::Consume))
                    } else {
                        let s = stream_bytes(file@, blocks, bs, 0, len);
                        if pdbstream::info_ok(s, 0) {
                            &&& r matches Ok(pdb)
                            &&& pdb.pdb_strm matches Some(ps)
                            &&& pdbstream::info_matches(ps, s, 0)
                        } else {
                            r == Err::<PDB, Error>(Error::PdbStreamError(pdbstream::info_err(s, 0)))
                        }
                    }
                }
            }),
    {
        let mut sr = match MSFStreamReader::new(msf, 1) {
            Ok(sr) => sr,
            Err(e) => {
                return Err(Error::BadStream(0, e));
            },
        };
        let n: usize = msf.sd.stream_sizes[1] as usize;
        proof {
            lemma_size_fits_blocks(msf.sd.stream_sizes@[1], msf.sb.block_size);
        }
        let bytes = match sr.read(file, msf, n) {
            Ok(b) => b,
            Err(_e) => {
                return Err(Error::PdbStreamError(pdbstream::Error::Consume));
            },
        };
        let mut s = Source::new(bytes);
        match PdbStream::load(&mut s) {
            Ok(ps) => Ok(PDB { pdb_strm: Some(ps) }),
            Err(e) => Err(Error::PdbStreamError(e)),
        }
    }
}

} // verus!
