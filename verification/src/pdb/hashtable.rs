//! The on-disk serialized hash table: a slot array plus presence and
//! deletion bit vectors, with linear-scan point lookup.

use crate::util::{le32_at, Source};
use vstd::prelude::*;

verus! {

/// Everything that can go wrong while decoding or querying a hash table.
#[derive(Debug, PartialEq, Eq)]
pub enum Error {
    /// A field could not be read: the source ended before it.
    Consume,
    /// A present slot index lies outside the slot array.
    HashTableInvalid,
    /// No present slot holds the requested key.
    HashTableEntryNotFound(u32),
}

/// A single slot of the table.
#[derive(Debug)]
pub struct HashTableEntry<T> {
    pub key: u32,
    pub value: T,
}

/// Bit-packed flags: a word count, then `word_count * 4` bytes, each byte
/// tested bit by bit.
#[derive(Debug)]
pub struct BitVector {
    pub word_count: u32,
    pub words: Vec<u8>,
}

/// Whether flag `i` is set: bit `i % 8` of byte `i / 8`, least-significant
/// bit first.
pub open spec fn bit_set(words: Seq<u8>, i: int) -> bool {
    &&& 0 <= i < 8 * words.len()
    &&& ((words[i / 8] as u32) >> ((i % 8) as u32)) & 1 == 1
}

/// One past the last byte of the bit vector encoded at `p`.
pub open spec fn bitvec_end(d: Seq<u8>, p: int) -> int {
    p + 4 + 4 * le32_at(d, p)
}

/// When the bit vector at `p` decodes without error.
pub open spec fn bitvec_ok(d: Seq<u8>, p: int) -> bool {
    p + 4 <= d.len() && bitvec_end(d, p) <= d.len()
}

/// How the decoded bit vector's fields relate to the bytes at `p`.
pub open spec fn bitvec_matches(bv: BitVector, d: Seq<u8>, p: int) -> bool {
    &&& bv.word_count == le32_at(d, p)
    &&& bv.words@ == d.subrange(p + 4, bitvec_end(d, p))
}

impl BitVector {
    /// Decodes a word count, then that many 4-byte groups of flag bytes.
    pub fn load(src: &mut Source) -> (r: Result<BitVector, Error>)
        ensures
            final(src).data@ == old(src).data@,
            ({
                let d = old(src).data@;
                let p = old(src).pos as int;
                if bitvec_ok(d, p) {
                    &&& r matches Ok(bv)
                    &&& bitvec_matches(bv, d, p)
                    &&& final(src).pos == bitvec_end(d, p)
                } else {
                    r == Err::<BitVector, Error>(Error::Consume)
                }
            }),
    {
        let ghost d = old(src).data@;
        let ghost p = old(src).pos as int;
        let wc = match src.read_u32() {
            Some(v) => v,
            None => {
                return Err(Error::Consume);
            },
        };
        let mut words: Vec<u8> = Vec::new();
        let mut i: u32 = 0;
        while i < wc
            invariant
                i <= wc,
                d == old(src).data@,
                src.data@ == d,
                p == old(src).pos,
                wc as int == le32_at(d, p),
                src.pos == p + 4 + 4 * i,
                src.pos <= d.len(),
                words@ =~= d.subrange(p + 4, p + 4 + 4 * i),
            decreases wc - i,
        {
            match src.read_bytes(4) {
                Some(four) => {
                    words.push(four[0]);
                    words.push(four[1]);
                    words.push(four[2]);
                    words.push(four[3]);
                    proof {
                        assert(words@ =~= d.subrange(p + 4, p + 4 + 4 * (i + 1)));
                    }
                },
                None => {
                    return Err(Error::Consume);
                },
            }
            i = i + 1;
        }
        Ok(BitVector { word_count: wc, words })
    }

    /// The positions of all set flags, in ascending order: exactly those
    /// `i` with bit `i % 8` of byte `i / 8` set.
    pub fn get_set_indices(&self) -> (r: Vec<u32>)
        requires
            8 * self.words@.len() <= 0x1_0000_0000,
        ensures
            forall|t: int| 0 <= t < r@.len() ==> bit_set(self.words@, #[trigger] r@[t] as int),
            forall|t1: int, t2: int| 0 <= t1 < t2 < r@.len() ==> r@[t1] < r@[t2],
            forall|i: int| bit_set(self.words@, i) ==> r@.contains(i as u32),
    {
        let wl: usize = self.words.len();
        let mut r: Vec<u32> = Vec::new();
        let mut i: usize = 0;
        while i < wl
            invariant
                i <= wl,
                wl == self.words@.len(),
                8 * wl <= 0x1_0000_0000,
                forall|t: int| 0 <= t < r@.len() ==> bit_set(self.words@, #[trigger] r@[t] as int),
                forall|t: int| 0 <= t < r@.len() ==> r@[t] < 8 * i,
                forall|t1: int, t2: int| 0 <= t1 < t2 < r@.len() ==> r@[t1] < r@[t2],
                forall|q: int| 0 <= q < 8 * i && bit_set(self.words@, q) ==> r@.contains(q as u32),
            decreases wl - i,
        {
            let b: u8 = self.words[i];
            let mut n: u32 = 0;
            while n < 8
                invariant
                    n <= 8,
                    i < wl,
                    wl == self.words@.len(),
                    8 * wl <= 0x1_0000_0000,
                    b == self.words@[i as int],
                    forall|t: int| 0 <= t < r@.len() ==> bit_set(
                        self.words@,
                        #[trigger] r@[t] as int,
                    ),
                    forall|t: int| 0 <= t < r@.len() ==> r@[t] < 8 * i + n,
                    forall|t1: int, t2: int| 0 <= t1 < t2 < r@.len() ==> r@[t1] < r@[t2],
                    forall|q: int|
                        0 <= q < 8 * i + n && bit_set(self.words@, q) ==> r@.contains(q as u32),
                decreases 8 - n,
            {
                proof {
                    vstd::arithmetic::div_mod::lemma_fundamental_div_mod_converse(
                        8 * i + n,
                        8,
                        i as int,
                        n as int,
                    );
                }
                if ((b as u32) >> n) & 1 == 1 {
                    let pos: u32 = (i as u32) * 8 + n;
                    let ghost old_r = r@;
                    r.push(pos);
                    proof {
                        assert forall|q: int|
                            0 <= q < 8 * i + n + 1 && bit_set(self.words@, q) implies r@.contains(
                            q as u32,
                        ) by {
                            if q == 8 * i + n {
                                assert(r@[r@.len() - 1] == q as u32);
                            } else {
                                let t = choose|t: int|
                                    0 <= t < old_r.len() && old_r[t] == q as u32;
                                assert(r@[t] == q as u32);
                            }
                        }
                    }
                }
                n = n + 1;
            }
            i = i + 1;
        }
        r
    }
}

/// One past the first two fields and both bit vectors: where the slot
/// array of the table at `p` starts.
pub open spec fn ht_entries_start(d: Seq<u8>, p: int) -> int {
    bitvec_end(d, bitvec_end(d, p + 8))
}

/// One past the last byte of the table encoded at `p`.
pub open spec fn ht_end(d: Seq<u8>, p: int) -> int {
    ht_entries_start(d, p) + 8 * le32_at(d, p + 4)
}

/// When the table at `p` decodes without error.
pub open spec fn ht_ok(d: Seq<u8>, p: int) -> bool {
    &&& p + 8 <= d.len()
    &&& bitvec_ok(d, p + 8)
    &&& bitvec_ok(d, bitvec_end(d, p + 8))
    &&& ht_end(d, p) <= d.len()
}

/// How the decoded table's fields relate to the bytes at `p`.
pub open spec fn ht_matches(ht: SerializedHashTable<u32>, d: Seq<u8>, p: int) -> bool {
    let es = ht_entries_start(d, p);
    &&& ht.size == le32_at(d, p)
    &&& ht.capacity == le32_at(d, p + 4)
    &&& bitvec_matches(ht.present_vec, d, p + 8)
    &&& bitvec_matches(ht.deleted_vec, d, bitvec_end(d, p + 8))
    &&& ht.entries@.len() == ht.capacity
    &&& forall|t: int|
        0 <= t < ht.entries@.len() ==> (#[trigger] ht.entries@[t]).key == le32_at(d, es + 8 * t)
            && ht.entries@[t].value == le32_at(d, es + 8 * t + 4)
}

/// The sparse key-to-value map decoded from a capacity-sized slot array
/// plus its presence and deletion bit vectors.
#[derive(Debug)]
pub struct SerializedHashTable<T> {
    pub size: usize,
    pub capacity: usize,
    pub present_vec: BitVector,
    pub deleted_vec: BitVector,
    pub entries: Vec<HashTableEntry<T>>,
}

impl HashTableEntry<u32> {
    /// Decodes one `(key, value)` slot.
    pub fn load(src: &mut Source) -> (r: Result<HashTableEntry<u32>, Error>)
        ensures
            final(src).data@ == old(src).data@,
            ({
                let d = old(src).data@;
                let p = old(src).pos as int;
                if p + 8 <= d.len() {
                    &&& r matches Ok(e)
                    &&& e.key == le32_at(d, p)
                    &&& e.value == le32_at(d, p + 4)
                    &&& final(src).pos == p + 8
                } else {
                    r == Err::<HashTableEntry<u32>, Error>(Error::Consume)
                }
            }),
    {
        let key = match src.read_u32() {
            Some(v) => v,
            None => {
                return Err(Error::Consume);
            },
        };
        let value = match src.read_u32() {
            Some(v) => v,
            None => {
                return Err(Error::Consume);
            },
        };
        Ok(HashTableEntry { key, value })
    }
}

/// What the table's lookup returns when the scan stands at position `p`:
/// present positions are visited in ascending order; the first one whose
/// slot key matches ends the scan.
pub open spec fn ht_get_from(
    words: Seq<u8>,
    entries: Seq<HashTableEntry<u32>>,
    key: u32,
    p: int,
) -> Result<u32, Error>
    decreases 8 * words.len() - p,
{
    if p < 0 || p >= 8 * words.len() {
        Err(Error::HashTableEntryNotFound(key))
    } else if bit_set(words, p) {
        if p >= entries.len() {
            Err(Error::HashTableInvalid)
        } else if entries[p].key == key {
            Ok(entries[p].value)
        } else {
            ht_get_from(words, entries, key, p + 1)
        }
    } else {
        ht_get_from(words, entries, key, p + 1)
    }
}

impl SerializedHashTable<u32> {
    /// Decodes size, capacity, the presence and deletion bit vectors, then
    /// exactly `capacity` slots.
    pub fn load(src: &mut Source) -> (r: Result<SerializedHashTable<u32>, Error>)
        ensures
            final(src).data@ == old(src).data@,
            ({
                let d = old(src).data@;
                let p = old(src).pos as int;
                if ht_ok(d, p) {
                    &&& r matches Ok(ht)
                    &&& ht_matches(ht, d, p)
                    &&& final(src).pos == ht_end(d, p)
                } else {
                    r == Err::<SerializedHashTable<u32>, Error>(Error::Consume)
                }
            }),
    {
        let ghost d = old(src).data@;
        let ghost p = old(src).pos as int;
        let size = match src.read_u32() {
            Some(v) => v,
            None => {
                return Err(Error::Consume);
            },
        };
        let capacity = match src.read_u32() {
            Some(v) => v,
            None => {
                return Err(Error::Consume);
            },
        };
        let present_vec = match BitVector::load(src) {
            Ok(v) => v,
            Err(e) => {
                return Err(e);
            },
        };
        let deleted_vec = match BitVector::load(src) {
            Ok(v) => v,
            Err(e) => {
                return Err(e);
            },
        };
        let ghost es = ht_entries_start(d, p);
        let mut entries: Vec<HashTableEntry<u32>> = Vec::new();
        let mut i: u32 = 0;
        while i < capacity
            invariant
                i <= capacity,
                d == old(src).data@,
                src.data@ == d,
                p == old(src).pos,
                capacity as int == le32_at(d, p + 4),
                es == ht_entries_start(d, p),
                src.pos == es + 8 * i,
                src.pos <= d.len(),
                entries@.len() == i,
                forall|t: int|
                    0 <= t < i ==> (#[trigger] entries@[t]).key == le32_at(d, es + 8 * t)
                        && entries@[t].value == le32_at(d, es + 8 * t + 4),
            decreases capacity - i,
        {
            match HashTableEntry::load(src) {
                Ok(e) => {
                    entries.push(e);
                },
                Err(e) => {
                    return Err(e);
                },
            }
            i = i + 1;
        }
        Ok(
            SerializedHashTable {
                size: size as usize,
                capacity: capacity as usize,
                present_vec,
                deleted_vec,
                entries,
            },
        )
    }

    /// Point lookup: scans the present positions in ascending order and
    /// returns the value of the first slot whose key matches; a present
    /// position outside the slot array is corruption; no match at all is
    /// the not-found outcome. The deletion vector is not consulted.
    pub fn get(&self, key: u32) -> (r: Result<u32, Error>)
        ensures
            r == ht_get_from(self.present_vec.words@, self.entries@, key, 0),
    {
        let ghost words = self.present_vec.words@;
        let ghost ents = self.entries@;
        let wl: usize = self.present_vec.words.len();
        let elen: usize = self.entries.len();
        let mut i: usize = 0;
        while i < wl
            invariant
                i <= wl,
                wl == words.len(),
                elen == ents.len(),
                words == self.present_vec.words@,
                ents == self.entries@,
                ht_get_from(words, ents, key, 0) == ht_get_from(words, ents, key, 8 * i),
            decreases wl - i,
        {
            let b: u8 = self.present_vec.words[i];
            let mut n: u32 = 0;
            while n < 8
                invariant
                    n <= 8,
                    i < wl,
                    wl == words.len(),
                    elen == ents.len(),
                    words == self.present_vec.words@,
                    ents == self.entries@,
                    b == words[i as int],
                    ht_get_from(words, ents, key, 0) == ht_get_from(words, ents, key, 8 * i + n),
                decreases 8 - n,
            {
                proof {
                    vstd::arithmetic::div_mod::lemma_fundamental_div_mod_converse(
                        8 * i + n,
                        8,
                        i as int,
                        n as int,
                    );
                }
                if ((b as u32) >> n) & 1 == 1 {
                    if i > elen / 8 {
                        proof {
                            vstd::arithmetic::div_mod::lemma_fundamental_div_mod(elen as int, 8);
                        }
                        return Err(Error::HashTableInvalid);
                    }
                    proof {
                        vstd::arithmetic::div_mod::lemma_fundamental_div_mod(elen as int, 8);
                    }
                    let base: usize = 8 * i;
                    if elen - base <= n as usize {
                        return Err(Error::HashTableInvalid);
                    }
                    let slot: usize = base + n as usize;
                    if self.entries[slot].key == key {
                        return Ok(self.entries[slot].value);
                    }
                }
                n = n + 1;
            }
            i = i + 1;
        }
        Err(Error::HashTableEntryNotFound(key))
    }
}

/// When exactly one present position's slot holds the key, and every
/// present position lies inside the slot array, the lookup scan from any
/// point at or before that position returns that slot's value.
pub proof fn lemma_get_unique_match(
    words: Seq<u8>,
    entries: Seq<HashTableEntry<u32>>,
    key: u32,
    p0: int,
    m: int,
)
    requires
        bit_set(words, m),
        m < entries.len(),
        entries[m].key == key,
        forall|i: int| bit_set(words, i) ==> i < entries.len(),
        forall|i: int|
            bit_set(words, i) && i < entries.len() && (#[trigger] entries[i]).key == key ==> i
                == m,
        0 <= p0 <= m,
    ensures
        ht_get_from(words, entries, key, p0) == Ok::<u32, Error>(entries[m].value),
    decreases m - p0,
{
    if p0 == m {
    } else {
        if bit_set(words, p0) {
            assert(entries[p0].key != key);
        }
        lemma_get_unique_match(words, entries, key, p0 + 1, m);
    }
}

/// When no present position's slot holds the key, and every present
/// position lies inside the slot array, the lookup scan reports the key
/// as not found.
pub proof fn lemma_get_no_match(
    words: Seq<u8>,
    entries: Seq<HashTableEntry<u32>>,
    key: u32,
    p0: int,
)
    requires
        forall|i: int| bit_set(words, i) ==> i < entries.len(),
        forall|i: int| bit_set(words, i) ==> (#[trigger] entries[i]).key != key,
        0 <= p0,
    ensures
        ht_get_from(words, entries, key, p0) == Err::<u32, Error>(
            Error::HashTableEntryNotFound(key),
        ),
    decreases 8 * words.len() - p0,
{
    if p0 >= 8 * words.len() {
    } else {
        lemma_get_no_match(words, entries, key, p0 + 1);
    }
}

} // verus!
