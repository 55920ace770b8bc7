//! Blobs, and sealed packs that concatenate them behind an index.

use vstd::prelude::*;
use vstd::slice::{slice_subrange, slice_to_vec};
use crate::hash::{HashId, Cmp, blake2b_256_of, compare_hash, hash_of};
use crate::index::{IndexEntry, PackIndex, distinct_hashes, same_entries};
use crate::store::StorageError;

verus! {

/// A stored object: its content hash and its bytes.
pub struct Blob {
    pub hash: HashId,
    pub data: Vec<u8>,
}

/// No two blobs of the sequence share a hash.
pub open spec fn distinct_blobs(s: Seq<Blob>) -> bool {
    forall|i: int, j: int| 0 <= i < s.len() && 0 <= j < s.len() && i != j
        ==> #[trigger] s[i].hash@ != #[trigger] s[j].hash@
}

/// Big-endian encoding of a 64-bit length.
pub open spec fn be64(n: u64) -> Seq<u8> {
    seq![
        (n >> 56u64) as u8, (n >> 48u64) as u8, (n >> 40u64) as u8, (n >> 32u64) as u8,
        (n >> 24u64) as u8, (n >> 16u64) as u8, (n >> 8u64) as u8, n as u8,
    ]
}

/// One record of a pack: the blob's length, then its bytes.
pub open spec fn pack_record(b: Blob) -> Seq<u8> {
    be64(b.data@.len() as u64) + b.data@
}

/// The bytes of a pack holding the given blobs in order.
pub open spec fn pack_bytes(s: Seq<Blob>) -> Seq<u8>
    decreases s.len(),
{
    if s.len() == 0 {
        Seq::empty()
    } else {
        pack_bytes(s.drop_last()) + pack_record(s.last())
    }
}

/// The bytes of a pack whose records hold the given contents in order.
pub open spec fn records_bytes(c: Seq<Seq<u8>>) -> Seq<u8>
    decreases c.len(),
{
    if c.len() == 0 {
        Seq::empty()
    } else {
        records_bytes(c.drop_last()) + be64(c.last().len() as u64) + c.last()
    }
}

/// The contents of the blobs, in order.
pub open spec fn contents_of(s: Seq<Blob>) -> Seq<Seq<u8>> {
    s.map_values(|b: Blob| b.data@)
}

/// No two of the contents have the same content hash.
pub open spec fn distinct_digests(c: Seq<Seq<u8>>) -> bool {
    forall|i: int, j: int| 0 <= i < c.len() && 0 <= j < c.len() && i != j
        ==> blake2b_256_of(#[trigger] c[i]) != blake2b_256_of(#[trigger] c[j])
}

/// The bytes of a pack of blobs are the records of their contents.
pub proof fn lemma_pack_bytes_records(s: Seq<Blob>)
    ensures
        pack_bytes(s) == records_bytes(contents_of(s)),
    decreases s.len(),
{
    if s.len() > 0 {
        lemma_pack_bytes_records(s.drop_last());
        assert(contents_of(s.drop_last()) =~= contents_of(s).drop_last());
        assert(pack_bytes(s) =~= records_bytes(contents_of(s)));
    }
}

/// The records of a shorter prefix begin the records of a longer one.
proof fn lemma_records_prefix(c: Seq<Seq<u8>>, i: int, j: int)
    requires
        0 <= i <= j <= c.len(),
    ensures
        records_bytes(c.take(i)).len() <= records_bytes(c.take(j)).len(),
        records_bytes(c.take(j)).subrange(0, records_bytes(c.take(i)).len() as int) == records_bytes(c.take(i)),
    decreases j - i,
{
    if i < j {
        lemma_records_prefix(c, i, j - 1);
        assert(c.take(j).drop_last() =~= c.take(j - 1));
        let a = records_bytes(c.take(i));
        let b = records_bytes(c.take(j - 1));
        let d = records_bytes(c.take(j));
        assert(d.subrange(0, a.len() as int) =~= b.subrange(0, a.len() as int));
    } else {
        assert(records_bytes(c.take(j)).subrange(0, records_bytes(c.take(i)).len() as int) =~= records_bytes(c.take(i)));
    }
}

/// The records of `k + 1` contents are those of `k` followed by record `k`.
proof fn lemma_records_step(c: Seq<Seq<u8>>, k: int)
    requires
        0 <= k < c.len(),
    ensures
        records_bytes(c.take(k + 1)) == records_bytes(c.take(k)) + be64(c[k].len() as u64) + c[k],
{
    assert(c.take(k + 1).drop_last() =~= c.take(k));
}

/// Eight bytes decode to the number that `be64` encoded.
proof fn lemma_be64_decode(n: u64)
    ensures
        (((((n >> 56u64) as u8) as u64) << 56u64) | ((((n >> 48u64) as u8) as u64) << 48u64)
            | ((((n >> 40u64) as u8) as u64) << 40u64) | ((((n >> 32u64) as u8) as u64) << 32u64)
            | ((((n >> 24u64) as u8) as u64) << 24u64) | ((((n >> 16u64) as u8) as u64) << 16u64)
            | ((((n >> 8u64) as u8) as u64) << 8u64) | ((n as u8) as u64)) == n,
{
    assert(
        (((((n >> 56u64) as u8) as u64) << 56u64) | ((((n >> 48u64) as u8) as u64) << 48u64)
            | ((((n >> 40u64) as u8) as u64) << 40u64) | ((((n >> 32u64) as u8) as u64) << 32u64)
            | ((((n >> 24u64) as u8) as u64) << 24u64) | ((((n >> 16u64) as u8) as u64) << 16u64)
            | ((((n >> 8u64) as u8) as u64) << 8u64) | ((n as u8) as u64)) == n
    ) by (bit_vector);
}

/// A sealed pack: its identifier (the hash of its bytes), its bytes, and its index.
pub struct Pack {
    pub id: HashId,
    pub data: Vec<u8>,
    pub index: PackIndex,
}

impl Pack {
    pub open spec fn wf(&self) -> bool {
        &&& self.index.wf()
        &&& forall|i: int| 0 <= i < self.index.entries@.len() ==>
            #[trigger] self.index.entries@[i].offset + self.index.entries@[i].size <= self.data@.len()
    }

    /// The bytes that entry `i` of the index points at.
    pub open spec fn entry_bytes(&self, i: int) -> Seq<u8> {
        let e = self.index.entries@[i];
        self.data@.subrange(e.offset as int, e.offset + e.size)
    }

    /// The pack holds `b` under hash `h`.
    pub open spec fn holds(&self, h: Seq<u8>, b: Seq<u8>) -> bool {
        exists|i: int| 0 <= i < self.index.entries@.len()
            && #[trigger] self.index.entries@[i].hash@ == h && self.entry_bytes(i) == b
    }

    /// The bytes stored under `h` in this pack, if any.
    pub fn lookup_blob(&self, h: &HashId) -> (r: Option<Vec<u8>>)
        requires
            self.wf(),
        ensures
            r matches Some(v) ==> self.holds(h@, v@),
            r is None ==> forall|b: Seq<u8>| !self.holds(h@, b),
    {
        match self.index.lookup(h) {
            Some((offset, size)) => {
                let len = self.data.len();
                proof {
                    let i = choose|i: int| 0 <= i < self.index.entries@.len()
                        && #[trigger] self.index.entries@[i].hash@ == h@
                        && self.index.entries@[i].offset == offset && self.index.entries@[i].size == size;
                    assert(self.index.entries@[i].offset + self.index.entries@[i].size <= self.data@.len());
                    assert(offset + size <= len);
                }
                let bytes = slice_to_vec(slice_subrange(self.data.as_slice(), offset, offset + size));
                Some(bytes)
            },
            None => None,
        }
    }
}

impl Pack {
    /// Reads a pack back from its bytes: a sequence of records, each a
    /// big-endian 64-bit length and that many bytes, no two with the same
    /// content hash. Anything else is `CorruptPack`.
    pub fn from_bytes(data: Vec<u8>) -> (r: Result<Pack, StorageError>)
        ensures
            r is Ok <==> exists|c: Seq<Seq<u8>>| #[trigger] records_bytes(c) == data@ && distinct_digests(c),
            r matches Ok(p) ==> {
                &&& p.wf()
                &&& p.data@ == data@
                &&& p.id@ == blake2b_256_of(data@)
                &&& exists|c: Seq<Seq<u8>>| {
                    &&& #[trigger] records_bytes(c) == data@
                    &&& distinct_digests(c)
                    &&& forall|h: Seq<u8>, b: Seq<u8>| #[trigger] p.holds(h, b) <==>
                        exists|i: int| 0 <= i < c.len() && #[trigger] c[i] == b && h == blake2b_256_of(b)
                }
            },
            r matches Err(e) ==> e == StorageError::CorruptPack,
    {
        let ghost wit: Option<Seq<Seq<u8>>> = if exists|c: Seq<Seq<u8>>| #[trigger] records_bytes(c) == data@ && distinct_digests(c) {
            Some(choose|c: Seq<Seq<u8>>| #[trigger] records_bytes(c) == data@ && distinct_digests(c))
        } else {
            None
        };
        let ghost mut parsed: Seq<Seq<u8>> = Seq::empty();
        let mut recorded: Vec<IndexEntry> = Vec::new();
        let mut pos: usize = 0;
        proof {
            if wit is Some {
                let bl = wit->Some_0;
                assert(bl.take(0) =~= Seq::<Seq<u8>>::empty());
            }
            assert(data@.subrange(0, 0) =~= records_bytes(parsed));
        }
        while pos < data.len()
            invariant
                pos <= data@.len(),
                distinct_hashes(recorded@),
                recorded@.len() == parsed.len(),
                records_bytes(parsed) == data@.subrange(0, pos as int),
                distinct_digests(parsed),
                forall|m: int| 0 <= m < recorded@.len() ==> {
                    &&& (#[trigger] recorded@[m]).offset + recorded@[m].size <= data@.len()
                    &&& data@.subrange(recorded@[m].offset as int, recorded@[m].offset + recorded@[m].size) == parsed[m]
                    &&& recorded@[m].hash@ == blake2b_256_of(parsed[m])
                },
                wit == (if exists|c: Seq<Seq<u8>>| #[trigger] records_bytes(c) == data@ && distinct_digests(c) {
                    Some(choose|c: Seq<Seq<u8>>| #[trigger] records_bytes(c) == data@ && distinct_digests(c))
                } else {
                    None
                }),
                wit matches Some(bl) ==> {
                    &&& records_bytes(bl) == data@
                    &&& distinct_digests(bl)
                    &&& parsed.len() <= bl.len()
                    &&& pos == records_bytes(bl.take(parsed.len() as int)).len()
                    &&& forall|m: int| 0 <= m < parsed.len() ==> #[trigger] parsed[m] == bl[m]
                },
            decreases data@.len() - pos,
        {
            let ghost gi = parsed.len() as int;
            proof {
                if wit is Some {
                    let bl = wit->Some_0;
                    assert(bl.take(bl.len() as int) =~= bl);
                    if gi == bl.len() {
                        assert(false);
                    }
                    lemma_records_step(bl, gi);
                    lemma_records_prefix(bl, gi + 1, bl.len() as int);
                    let whole = records_bytes(bl.take(gi + 1));
                    let rec_len = bl[gi].len();
                    let pre = records_bytes(bl.take(gi));
                    let enc = be64(rec_len as u64);
                    assert(data@.subrange(0, whole.len() as int) == whole);
                    assert(whole == pre + enc + bl[gi]);
                    assert forall|k: int| 0 <= k < 8 implies #[trigger] data@.subrange(pos as int, pos + 8)[k] == enc[k] by {
                        assert(data@[pos + k] == data@.subrange(0, whole.len() as int)[pos + k]);
                        assert(whole[pos + k] == (pre + enc)[pos + k]);
                    }
                    assert(data@.subrange(pos as int, pos + 8) =~= enc);
                    assert forall|k: int| 0 <= k < rec_len implies #[trigger] data@.subrange(pos + 8, pos + 8 + rec_len)[k] == bl[gi][k] by {
                        assert(data@[pos + 8 + k] == data@.subrange(0, whole.len() as int)[pos + 8 + k]);
                    }
                    assert(data@.subrange(pos + 8, pos + 8 + rec_len) =~= bl[gi]);
                }
            }
            if data.len() - pos < 8 {
                return Err(StorageError::CorruptPack);
            }
            let n = read_be64(&data, pos);
            let rest = data.len() - pos - 8;
            if n > rest as u64 {
                return Err(StorageError::CorruptPack);
            }
            let size = n as usize;
            let offset = pos + 8;
            let h = hash_of(slice_subrange(data.as_slice(), offset, offset + size));
            let ghost x = data@.subrange(offset as int, offset + size);
            proof {
                if wit is Some {
                    let bl = wit->Some_0;
                    assert(size == bl[gi].len());
                    assert(x == bl[gi]);
                    assert forall|m: int| 0 <= m < recorded@.len() implies #[trigger] recorded@[m].hash@ != h@ by {
                        assert(parsed[m] == bl[m]);
                        assert(blake2b_256_of(bl[m]) != blake2b_256_of(bl[gi]));
                    }
                }
            }
            if find_hash(&recorded, &h) {
                return Err(StorageError::CorruptPack);
            }
            let ghost before = recorded@;
            let ghost parsed_before = parsed;
            recorded.push(IndexEntry { hash: h, offset, size });
            proof {
                parsed = parsed.push(x);
                assert(parsed.drop_last() =~= parsed_before);
                assert(n as int == x.len());
                assert(data@.subrange(0, offset + size) =~= data@.subrange(0, pos as int)
                    + data@.subrange(pos as int, pos + 8) + x);
                assert forall|a: int, b: int| 0 <= a < recorded@.len() && 0 <= b < recorded@.len() && a != b
                    implies #[trigger] recorded@[a].hash@ != #[trigger] recorded@[b].hash@ by {
                    if a < before.len() && b < before.len() {
                        assert(recorded@[a] == before[a]);
                        assert(recorded@[b] == before[b]);
                    } else if a < before.len() {
                        assert(recorded@[a] == before[a]);
                    } else {
                        assert(recorded@[b] == before[b]);
                    }
                }
                assert forall|a: int, b: int| 0 <= a < parsed.len() && 0 <= b < parsed.len() && a != b
                    implies blake2b_256_of(#[trigger] parsed[a]) != blake2b_256_of(#[trigger] parsed[b]) by {
                    if a < gi && b < gi {
                        assert(parsed[a] == parsed_before[a]);
                        assert(parsed[b] == parsed_before[b]);
                    } else if a < gi {
                        assert(parsed[a] == parsed_before[a]);
                        assert(recorded@[a] == before[a]);
                    } else {
                        assert(parsed[b] == parsed_before[b]);
                        assert(recorded@[b] == before[b]);
                    }
                }
                assert forall|m: int| 0 <= m < recorded@.len() implies {
                    &&& (#[trigger] recorded@[m]).offset + recorded@[m].size <= data@.len()
                    &&& data@.subrange(recorded@[m].offset as int, recorded@[m].offset + recorded@[m].size) == parsed[m]
                    &&& recorded@[m].hash@ == blake2b_256_of(parsed[m])
                } by {
                    if m < before.len() {
                        assert(recorded@[m] == before[m]);
                        assert(parsed[m] == parsed_before[m]);
                    }
                }
                if wit is Some {
                    let bl = wit->Some_0;
                    lemma_records_step(bl, gi);
                    assert forall|m: int| 0 <= m < parsed.len() implies #[trigger] parsed[m] == bl[m] by {
                        if m < gi {
                            assert(parsed[m] == parsed_before[m]);
                        }
                    }
                }
            }
            pos = offset + size;
        }
        let ghost rec = recorded@;
        let index = PackIndex::new(recorded);
        let id = hash_of(data.as_slice());
        let p = Pack { id, data, index };
        proof {
            assert(p.data@.subrange(0, pos as int) =~= p.data@);
            let es = p.index.entries@;
            assert forall|j: int| 0 <= j < es.len() implies
                #[trigger] es[j].offset + es[j].size <= p.data@.len() by {
                assert(rec.contains(es[j]));
            }
            assert forall|h: Seq<u8>, b: Seq<u8>| #[trigger] p.holds(h, b) <==>
                exists|i: int| 0 <= i < parsed.len() && #[trigger] parsed[i] == b && h == blake2b_256_of(b) by {
                if p.holds(h, b) {
                    let j = choose|j: int| 0 <= j < es.len() && #[trigger] es[j].hash@ == h && p.entry_bytes(j) == b;
                    assert(rec.contains(es[j]));
                    let m = choose|m: int| 0 <= m < rec.len() && rec[m] == es[j];
                    assert(parsed[m] == b);
                }
                if exists|i: int| 0 <= i < parsed.len() && #[trigger] parsed[i] == b && h == blake2b_256_of(b) {
                    let m = choose|m: int| 0 <= m < parsed.len() && #[trigger] parsed[m] == b && h == blake2b_256_of(b);
                    assert(es.contains(rec[m]));
                    let j = choose|j: int| 0 <= j < es.len() && es[j] == rec[m];
                    assert(es[j].hash@ == h);
                    assert(p.entry_bytes(j) == b);
                }
            }
            assert(records_bytes(parsed) == data@);
        }
        Ok(p)
    }
}

/// The big-endian 64-bit number in the eight bytes from `pos`.
fn read_be64(data: &Vec<u8>, pos: usize) -> (r: u64)
    requires
        pos + 8 <= data@.len(),
    ensures
        forall|n: u64| #[trigger] be64(n) == data@.subrange(pos as int, pos + 8) ==> r == n,
        be64(r) == data@.subrange(pos as int, pos + 8),
{
    // bounds the positions read below by usize::MAX
    let _ = data.len();
    let r = ((data[pos] as u64) << 56u64) | ((data[pos + 1] as u64) << 48u64) | ((data[pos + 2] as u64) << 40u64)
        | ((data[pos + 3] as u64) << 32u64) | ((data[pos + 4] as u64) << 24u64)
        | ((data[pos + 5] as u64) << 16u64) | ((data[pos + 6] as u64) << 8u64) | (data[pos + 7] as u64);
    proof {
        assert forall|n: u64| #[trigger] be64(n) == data@.subrange(pos as int, pos + 8) implies r == n by {
            let sub = data@.subrange(pos as int, pos + 8);
            assert(data@[pos as int] == sub[0]);
            assert(data@[pos + 1] == sub[1]);
            assert(data@[pos + 2] == sub[2]);
            assert(data@[pos + 3] == sub[3]);
            assert(data@[pos + 4] == sub[4]);
            assert(data@[pos + 5] == sub[5]);
            assert(data@[pos + 6] == sub[6]);
            assert(data@[pos + 7] == sub[7]);
            lemma_be64_decode(n);
        }
        let (b0, b1, b2, b3) = (data@[pos as int], data@[pos + 1], data@[pos + 2], data@[pos + 3]);
        let (b4, b5, b6, b7) = (data@[pos + 4], data@[pos + 5], data@[pos + 6], data@[pos + 7]);
        lemma_be64_encode(b0, b1, b2, b3, b4, b5, b6, b7);
        assert(be64(r) =~= data@.subrange(pos as int, pos + 8));
    }
    r
}

/// Encoding the number that eight bytes decode to gives those bytes back.
proof fn lemma_be64_encode(b0: u8, b1: u8, b2: u8, b3: u8, b4: u8, b5: u8, b6: u8, b7: u8)
    ensures ({
        let r = ((b0 as u64) << 56u64) | ((b1 as u64) << 48u64) | ((b2 as u64) << 40u64)
            | ((b3 as u64) << 32u64) | ((b4 as u64) << 24u64) | ((b5 as u64) << 16u64)
            | ((b6 as u64) << 8u64) | (b7 as u64);
        &&& (r >> 56u64) as u8 == b0
        &&& (r >> 48u64) as u8 == b1
        &&& (r >> 40u64) as u8 == b2
        &&& (r >> 32u64) as u8 == b3
        &&& (r >> 24u64) as u8 == b4
        &&& (r >> 16u64) as u8 == b5
        &&& (r >> 8u64) as u8 == b6
        &&& r as u8 == b7
    }),
{
    assert({
        let r = ((b0 as u64) << 56u64) | ((b1 as u64) << 48u64) | ((b2 as u64) << 40u64)
            | ((b3 as u64) << 32u64) | ((b4 as u64) << 24u64) | ((b5 as u64) << 16u64)
            | ((b6 as u64) << 8u64) | (b7 as u64);
        &&& (r >> 56u64) as u8 == b0
        &&& (r >> 48u64) as u8 == b1
        &&& (r >> 40u64) as u8 == b2
        &&& (r >> 32u64) as u8 == b3
        &&& (r >> 24u64) as u8 == b4
        &&& (r >> 16u64) as u8 == b5
        &&& (r >> 8u64) as u8 == b6
        &&& r as u8 == b7
    }) by (bit_vector);
}

/// Whether some entry has hash `h`.
fn find_hash(entries: &Vec<IndexEntry>, h: &HashId) -> (r: bool)
    ensures
        r <==> exists|i: int| 0 <= i < entries@.len() && #[trigger] entries@[i].hash@ == h@,
{
    let mut i: usize = 0;
    while i < entries.len()
        invariant
            i <= entries@.len(),
            forall|j: int| 0 <= j < i ==> #[trigger] entries@[j].hash@ != h@,
        decreases entries@.len() - i,
    {
        if compare_hash(&entries[i].hash, h) == Cmp::Equal {
            return true;
        }
        i = i + 1;
    }
    false
}

/// Appends the big-endian encoding of `n`.
fn push_be64(out: &mut Vec<u8>, n: u64)
    ensures
        final(out)@ == old(out)@ + be64(n),
{
    out.push((n >> 56u64) as u8);
    out.push((n >> 48u64) as u8);
    out.push((n >> 40u64) as u8);
    out.push((n >> 32u64) as u8);
    out.push((n >> 24u64) as u8);
    out.push((n >> 16u64) as u8);
    out.push((n >> 8u64) as u8);
    out.push(n as u8);
    proof {
        assert(final(out)@ =~= old(out)@ + be64(n));
    }
}

/// Seals the first `k` blobs into a pack.
pub fn build_pack(blobs: &Vec<Blob>, k: usize) -> (p: Pack)
    requires
        k <= blobs@.len(),
        distinct_blobs(blobs@.take(k as int)),
    ensures
        p.wf(),
        p.data@ == pack_bytes(blobs@.take(k as int)),
        p.id@ == blake2b_256_of(p.data@),
        forall|h: Seq<u8>, b: Seq<u8>| #[trigger] p.holds(h, b) <==>
            exists|i: int| 0 <= i < k && #[trigger] blobs@[i].hash@ == h && blobs@[i].data@ == b,
{
    let mut data: Vec<u8> = Vec::new();
    let mut recorded: Vec<IndexEntry> = Vec::new();
    let mut i: usize = 0;
    while i < k
        invariant
            k <= blobs@.len(),
            i <= k,
            recorded@.len() == i,
            data@ == pack_bytes(blobs@.take(i as int)),
            forall|m: int| 0 <= m < i ==> {
                &&& (#[trigger] recorded@[m]).hash == blobs@[m].hash
                &&& recorded@[m].offset + recorded@[m].size <= data@.len()
                &&& data@.subrange(recorded@[m].offset as int, recorded@[m].offset + recorded@[m].size) == blobs@[m].data@
            },
        decreases k - i,
    {
        let blob = &blobs[i];
        let ghost before = data@;
        push_be64(&mut data, blob.data.len() as u64);
        let offset = data.len();
        data.extend_from_slice(blob.data.as_slice());
        let entry = IndexEntry { hash: blob.hash, offset, size: blob.data.len() };
        recorded.push(entry);
        proof {
            assert(data@ =~= before + be64(blob.data@.len() as u64) + blob.data@);
            assert(blobs@.take(i + 1).drop_last() =~= blobs@.take(i as int));
            assert(data@ =~= pack_bytes(blobs@.take(i + 1)));
            assert(data@.subrange(offset as int, offset + blob.data@.len()) =~= blob.data@);
            assert forall|m: int| 0 <= m < i + 1 implies {
                &&& (#[trigger] recorded@[m]).hash == blobs@[m].hash
                &&& recorded@[m].offset + recorded@[m].size <= data@.len()
                &&& data@.subrange(recorded@[m].offset as int, recorded@[m].offset + recorded@[m].size) == blobs@[m].data@
            } by {
                if m < i {
                    let e = recorded@[m];
                    assert(data@.subrange(e.offset as int, e.offset + e.size)
                        =~= before.subrange(e.offset as int, e.offset + e.size));
                }
            }
        }
        i = i + 1;
    }
    proof {
        assert forall|a: int, b: int| 0 <= a < recorded@.len() && 0 <= b < recorded@.len() && a != b
            implies #[trigger] recorded@[a].hash@ != #[trigger] recorded@[b].hash@ by {
            assert(blobs@.take(k as int)[a] == blobs@[a]);
            assert(blobs@.take(k as int)[b] == blobs@[b]);
        }
    }
    let ghost rec = recorded@;
    let index = PackIndex::new(recorded);
    let id = hash_of(data.as_slice());
    let p = Pack { id, data, index };
    proof {
        let es = p.index.entries@;
        assert(same_entries(es, rec));
        assert forall|j: int| 0 <= j < es.len() implies
            #[trigger] es[j].offset + es[j].size <= p.data@.len() by {
            assert(rec.contains(es[j]));
        }
        assert forall|h: Seq<u8>, b: Seq<u8>| #[trigger] p.holds(h, b) <==>
            exists|i: int| 0 <= i < k && #[trigger] blobs@[i].hash@ == h && blobs@[i].data@ == b by {
            if p.holds(h, b) {
                let j = choose|j: int| 0 <= j < es.len() && #[trigger] es[j].hash@ == h && p.entry_bytes(j) == b;
                assert(rec.contains(es[j]));
                let m = choose|m: int| 0 <= m < rec.len() && rec[m] == es[j];
                assert(blobs@[m].hash@ == h);
            }
            if exists|i: int| 0 <= i < k && #[trigger] blobs@[i].hash@ == h && blobs@[i].data@ == b {
                let m = choose|m: int| 0 <= m < k && #[trigger] blobs@[m].hash@ == h && blobs@[m].data@ == b;
                assert(es.contains(rec[m]));
                let j = choose|j: int| 0 <= j < es.len() && es[j] == rec[m];
                assert(es[j].hash@ == h);
                assert(p.entry_bytes(j) == b);
            }
        }
    }
    p
}

} // verus!
