//! The index of a sealed pack: entries sorted by hash, and a fanout table
//! over their leading bytes.

use vstd::prelude::*;
use crate::store::StorageError;
use crate::hash::{HashId, Cmp, compare_hash, lex_lt, lemma_lex_total, lemma_lex_transitive,
    lemma_lex_irreflexive};

verus! {

/// Number of buckets in a fanout table, one per leading byte.
pub const FANOUT_SIZE: usize = 256;

/// Where a blob lies in a pack: `size` bytes starting at `offset`.
#[derive(Clone, Copy, Debug)]
pub struct IndexEntry {
    pub hash: HashId,
    pub offset: usize,
    pub size: usize,
}

/// Hashes strictly increasing along the sequence.
pub open spec fn sorted_entries(e: Seq<IndexEntry>) -> bool {
    forall|i: int, j: int| 0 <= i < j < e.len() ==> lex_lt(#[trigger] e[i].hash@, #[trigger] e[j].hash@)
}

/// No two entries share a hash.
pub open spec fn distinct_hashes(e: Seq<IndexEntry>) -> bool {
    forall|i: int, j: int| 0 <= i < e.len() && 0 <= j < e.len() && i != j
        ==> #[trigger] e[i].hash@ != #[trigger] e[j].hash@
}

/// Bucket `b` of the fanout table: the entries whose leading byte is at
/// most `b` are exactly the first `f[b]`.
pub open spec fn fanout_bucket_ok(f: Seq<usize>, e: Seq<IndexEntry>, b: int) -> bool {
    &&& f[b] <= e.len()
    &&& forall|i: int| 0 <= i < f[b] ==> #[trigger] e[i].hash@[0] <= b
    &&& forall|i: int| f[b] <= i < e.len() ==> #[trigger] e[i].hash@[0] > b
}

pub open spec fn fanout_matches(f: Seq<usize>, e: Seq<IndexEntry>) -> bool {
    &&& f.len() == 256
    &&& forall|b: int| 0 <= b < 256 ==> #[trigger] fanout_bucket_ok(f, e, b)
}

/// `e` holds exactly the elements of `src`, in some order.
pub open spec fn same_entries(e: Seq<IndexEntry>, src: Seq<IndexEntry>) -> bool {
    &&& e.len() == src.len()
    &&& forall|i: int| 0 <= i < e.len() ==> src.contains(#[trigger] e[i])
    &&& forall|k: int| 0 <= k < src.len() ==> e.contains(#[trigger] src[k])
}

pub open spec fn has_entry(e: Seq<IndexEntry>, h: Seq<u8>, offset: usize, size: usize) -> bool {
    exists|i: int| 0 <= i < e.len() && #[trigger] e[i].hash@ == h && e[i].offset == offset && e[i].size == size
}

pub open spec fn has_hash(e: Seq<IndexEntry>, h: Seq<u8>) -> bool {
    exists|i: int| 0 <= i < e.len() && #[trigger] e[i].hash@ == h
}

/// A pack index: the fanout table and the entries sorted by hash.
pub struct PackIndex {
    pub fanout: Vec<usize>,
    pub entries: Vec<IndexEntry>,
}

impl PackIndex {
    pub open spec fn wf(&self) -> bool {
        &&& sorted_entries(self.entries@)
        &&& fanout_matches(self.fanout@, self.entries@)
    }

    /// Builds the index of the given entries.
    pub fn new(recorded: Vec<IndexEntry>) -> (r: PackIndex)
        requires
            distinct_hashes(recorded@),
        ensures
            r.wf(),
            same_entries(r.entries@, recorded@),
    {
        let entries = sort_entries(recorded);
        let fanout = build_fanout(&entries);
        PackIndex { fanout, entries }
    }

    /// An index from a stored fanout table and entry list, checked: they
    /// must be well formed, else the data is `CorruptPack`.
    pub fn from_parts(fanout: Vec<usize>, entries: Vec<IndexEntry>) -> (r: Result<PackIndex, StorageError>)
        ensures
            r is Ok <==> sorted_entries(entries@) && fanout_matches(fanout@, entries@),
            r matches Ok(idx) ==> idx.fanout@ == fanout@ && idx.entries@ == entries@,
            r matches Err(e) ==> e == StorageError::CorruptPack,
    {
        if fanout.len() != FANOUT_SIZE {
            return Err(StorageError::CorruptPack);
        }
        let mut i: usize = 1;
        while i < entries.len()
            invariant
                1 <= i,
                forall|a: int, b: int| 0 <= a < b < i && b < entries@.len()
                    ==> lex_lt(#[trigger] entries@[a].hash@, #[trigger] entries@[b].hash@),
            decreases entries@.len() - i,
        {
            if compare_hash(&entries[i - 1].hash, &entries[i].hash) != Cmp::Less {
                return Err(StorageError::CorruptPack);
            }
            proof {
                assert forall|a: int| 0 <= a < i implies lex_lt(#[trigger] entries@[a].hash@, entries@[i as int].hash@) by {
                    if a < i - 1 {
                        lemma_lex_transitive(entries@[a].hash@, entries@[i - 1].hash@, entries@[i as int].hash@);
                    }
                }
            }
            i = i + 1;
        }
        let expected = build_fanout(&entries);
        let mut b: usize = 0;
        while b < FANOUT_SIZE
            invariant
                fanout@.len() == 256,
                fanout_matches(expected@, entries@),
                forall|c: int| 0 <= c < b ==> #[trigger] fanout@[c] == expected@[c],
            decreases 256 - b,
        {
            if fanout[b] != expected[b] {
                proof {
                    lemma_fanout_unique(fanout@, expected@, entries@, b as int);
                }
                return Err(StorageError::CorruptPack);
            }
            b = b + 1;
        }
        proof {
            assert(fanout@ =~= expected@);
        }
        Ok(PackIndex { fanout, entries })
    }

    /// The index of no entries.
    pub fn empty() -> (r: PackIndex)
        ensures
            r.wf(),
            r.entries@.len() == 0,
    {
        PackIndex::new(Vec::new())
    }

    /// Number of entries.
    pub fn len(&self) -> (r: usize)
        ensures
            r == self.entries@.len(),
    {
        self.entries.len()
    }

    /// Where the blob with hash `h` lies in the pack, if the index holds it.
    pub fn lookup(&self, h: &HashId) -> (r: Option<(usize, usize)>)
        requires
            self.wf(),
        ensures
            r is Some <==> has_hash(self.entries@, h@),
            r matches Some((o, s)) ==> has_entry(self.entries@, h@, o, s),
    {
        let b = h[0] as usize;
        let mut lo: usize = if b == 0 { 0 } else { self.fanout[b - 1] };
        let mut hi: usize = self.fanout[b];
        proof {
            assert(fanout_bucket_ok(self.fanout@, self.entries@, b as int));
            if b > 0 {
                assert(fanout_bucket_ok(self.fanout@, self.entries@, b - 1));
            }
        }
        if hi < lo {
            proof {
                assert forall|i: int| 0 <= i < self.entries@.len() implies #[trigger] self.entries@[i].hash@ != h@ by {
                    if i < hi {
                        assert(self.entries@[i].hash@[0] <= b);
                    }
                }
            }
            return None;
        }
        while lo < hi
            invariant
                self.wf(),
                hi <= self.entries@.len(),
                lo <= hi,
                h@.len() == 32,
                forall|i: int| 0 <= i < lo ==> lex_lt(#[trigger] self.entries@[i].hash@, h@),
                forall|i: int| hi <= i < self.entries@.len() ==> lex_lt(h@, #[trigger] self.entries@[i].hash@),
            decreases hi - lo,
        {
            let mid = lo + (hi - lo) / 2;
            let e = self.entries[mid];
            match compare_hash(&e.hash, h) {
                Cmp::Equal => {
                    return Some((e.offset, e.size));
                },
                Cmp::Less => {
                    proof {
                        assert forall|i: int| 0 <= i <= mid implies lex_lt(#[trigger] self.entries@[i].hash@, h@) by {
                            if i < mid {
                                lemma_lex_transitive(self.entries@[i].hash@, e.hash@, h@);
                            }
                        }
                    }
                    lo = mid + 1;
                },
                Cmp::Greater => {
                    proof {
                        assert forall|i: int| mid <= i < self.entries@.len() implies lex_lt(h@, #[trigger] self.entries@[i].hash@) by {
                            if i > mid {
                                lemma_lex_transitive(h@, e.hash@, self.entries@[i].hash@);
                            }
                        }
                    }
                    hi = mid;
                },
            }
        }
        proof {
            assert forall|i: int| 0 <= i < self.entries@.len() implies #[trigger] self.entries@[i].hash@ != h@ by {
                lemma_lex_irreflexive(h@);
            }
        }
        None
    }

    /// The fanout table and the sorted hashes, for inspection.
    pub fn dump_index(&self) -> (r: (Vec<usize>, Vec<HashId>))
        ensures
            r.0@ == self.fanout@,
            r.1@.len() == self.entries@.len(),
            forall|i: int| 0 <= i < r.1@.len() ==> #[trigger] r.1@[i] == self.entries@[i].hash,
    {
        let mut hashes: Vec<HashId> = Vec::new();
        let mut i: usize = 0;
        while i < self.entries.len()
            invariant
                i <= self.entries@.len(),
                hashes@.len() == i,
                forall|k: int| 0 <= k < i ==> #[trigger] hashes@[k] == self.entries@[k].hash,
            decreases self.entries@.len() - i,
        {
            hashes.push(self.entries[i].hash);
            i = i + 1;
        }
        (self.fanout.clone(), hashes)
    }
}

/// Inserts `x` into sorted entries none of which has its hash, keeping them sorted.
fn insert_sorted(v: &mut Vec<IndexEntry>, x: IndexEntry) -> (p: usize)
    requires
        sorted_entries(old(v)@),
        forall|j: int| 0 <= j < old(v)@.len() ==> #[trigger] old(v)@[j].hash@ != x.hash@,
    ensures
        p <= old(v)@.len(),
        final(v)@ == old(v)@.insert(p as int, x),
        sorted_entries(final(v)@),
{
    let mut p: usize = 0;
    loop
        invariant
            p <= v@.len(),
            forall|j: int| 0 <= j < p ==> lex_lt(#[trigger] v@[j].hash@, x.hash@),
            forall|j: int| 0 <= j < v@.len() ==> #[trigger] v@[j].hash@ != x.hash@,
        ensures
            p <= v@.len(),
            forall|j: int| 0 <= j < p ==> lex_lt(#[trigger] v@[j].hash@, x.hash@),
            p == v@.len() || lex_lt(x.hash@, v@[p as int].hash@),
        decreases v@.len() - p,
    {
        if p == v.len() {
            break;
        }
        if compare_hash(&v[p].hash, &x.hash) == Cmp::Greater {
            break;
        }
        proof {
            lemma_lex_total(v@[p as int].hash@, x.hash@);
        }
        p = p + 1;
    }
    let ghost old_v = v@;
    proof {
        assert forall|j: int| p <= j < old_v.len() implies lex_lt(x.hash@, #[trigger] old_v[j].hash@) by {
            if j > p {
                lemma_lex_transitive(x.hash@, old_v[p as int].hash@, old_v[j].hash@);
            }
        }
        old_v.insert_ensures(p as int, x);
    }
    v.insert(p, x);
    proof {
        assert forall|a: int, b: int| 0 <= a < b < v@.len() implies lex_lt(#[trigger] v@[a].hash@, #[trigger] v@[b].hash@) by {
            if b < p {
            } else if b == p {
            } else if a < p {
                assert(v@[b] == old_v[b - 1]);
                lemma_lex_transitive(v@[a].hash@, x.hash@, v@[b].hash@);
            } else if a == p {
                assert(v@[b] == old_v[b - 1]);
            } else {
                assert(v@[a] == old_v[a - 1]);
                assert(v@[b] == old_v[b - 1]);
            }
        }
    }
    p
}

/// In a well-formed index the last fanout bucket counts every entry, and the
/// offset and size recorded for an entry's hash are that entry's, so that
/// `lookup` of the hash returns exactly them.
pub proof fn lemma_index_correct(idx: PackIndex, i: int)
    requires
        idx.wf(),
        0 <= i < idx.entries@.len(),
    ensures
        idx.fanout@[255] == idx.entries@.len(),
        has_entry(idx.entries@, idx.entries@[i].hash@, idx.entries@[i].offset, idx.entries@[i].size),
        forall|o: usize, s: usize| has_entry(idx.entries@, idx.entries@[i].hash@, o, s)
            ==> o == idx.entries@[i].offset && s == idx.entries@[i].size,
{
    assert(fanout_bucket_ok(idx.fanout@, idx.entries@, 255));
    if idx.fanout@[255] < idx.entries@.len() {
        let e = idx.entries@[idx.fanout@[255] as int];
        assert(e.hash@[0] > 255);
    }
    assert forall|o: usize, s: usize| has_entry(idx.entries@, idx.entries@[i].hash@, o, s)
        implies o == idx.entries@[i].offset && s == idx.entries@[i].size by {
        let j = choose|j: int| 0 <= j < idx.entries@.len() && #[trigger] idx.entries@[j].hash@ == idx.entries@[i].hash@
            && idx.entries@[j].offset == o && idx.entries@[j].size == s;
        if j < i {
            assert(lex_lt(idx.entries@[j].hash@, idx.entries@[i].hash@));
            lemma_lex_irreflexive(idx.entries@[i].hash@);
        } else if j > i {
            assert(lex_lt(idx.entries@[i].hash@, idx.entries@[j].hash@));
            lemma_lex_irreflexive(idx.entries@[i].hash@);
        }
    }
}

/// The fanout table of a list of entries admits one value per bucket.
proof fn lemma_fanout_unique(f1: Seq<usize>, f2: Seq<usize>, e: Seq<IndexEntry>, b: int)
    requires
        fanout_matches(f2, e),
        f1.len() == 256,
        0 <= b < 256,
        f1[b] != f2[b],
    ensures
        !fanout_matches(f1, e),
{
    if fanout_matches(f1, e) {
        assert(fanout_bucket_ok(f1, e, b));
        assert(fanout_bucket_ok(f2, e, b));
        if f1[b] < f2[b] {
            assert(e[f1[b] as int].hash@[0] > b);
        } else {
            assert(e[f2[b] as int].hash@[0] > b);
        }
    }
}

/// Sorts entries with distinct hashes by hash.
pub fn sort_entries(recorded: Vec<IndexEntry>) -> (r: Vec<IndexEntry>)
    requires
        distinct_hashes(recorded@),
    ensures
        sorted_entries(r@),
        same_entries(r@, recorded@),
{
    let mut v: Vec<IndexEntry> = Vec::new();
    let mut i: usize = 0;
    while i < recorded.len()
        invariant
            i <= recorded@.len(),
            distinct_hashes(recorded@),
            v@.len() == i,
            sorted_entries(v@),
            forall|j: int| 0 <= j < v@.len() ==> recorded@.subrange(0, i as int).contains(#[trigger] v@[j]),
            forall|k: int| 0 <= k < i ==> v@.contains(#[trigger] recorded@[k]),
        decreases recorded@.len() - i,
    {
        let x = recorded[i];
        proof {
            assert forall|j: int| 0 <= j < v@.len() implies #[trigger] v@[j].hash@ != x.hash@ by {
                let k = choose|k: int| 0 <= k < i && recorded@.subrange(0, i as int)[k] == v@[j];
                assert(recorded@[k] == recorded@.subrange(0, i as int)[k]);
                assert(recorded@[k].hash@ != recorded@[i as int].hash@);
            }
        }
        let ghost old_v = v@;
        let p = insert_sorted(&mut v, x);
        proof {
            old_v.insert_ensures(p as int, x);
            let sub = recorded@.subrange(0, i + 1);
            assert forall|j: int| 0 <= j < v@.len() implies sub.contains(#[trigger] v@[j]) by {
                if j < p {
                    assert(v@[j] == old_v[j]);
                    let k = choose|k: int| 0 <= k < i && recorded@.subrange(0, i as int)[k] == old_v[j];
                    assert(sub[k] == v@[j]);
                } else if j == p {
                    assert(sub[i as int] == v@[j]);
                } else {
                    assert(v@[j] == old_v[j - 1]);
                    let k = choose|k: int| 0 <= k < i && recorded@.subrange(0, i as int)[k] == old_v[j - 1];
                    assert(sub[k] == v@[j]);
                }
            }
            assert forall|k: int| 0 <= k < i + 1 implies v@.contains(#[trigger] recorded@[k]) by {
                if k < i {
                    let j = choose|j: int| 0 <= j < old_v.len() && old_v[j] == recorded@[k];
                    if j < p {
                        assert(v@[j] == old_v[j]);
                    } else {
                        assert(v@[j + 1] == old_v[j]);
                    }
                } else {
                    assert(v@[p as int] == recorded@[k]);
                }
            }
        }
        i = i + 1;
    }
    proof {
        assert(recorded@.subrange(0, i as int) =~= recorded@);
    }
    v
}

/// Builds the fanout table of entries sorted by hash.
pub fn build_fanout(entries: &Vec<IndexEntry>) -> (r: Vec<usize>)
    requires
        sorted_entries(entries@),
        forall|i: int| 0 <= i < entries@.len() ==> (#[trigger] entries@[i]).hash@.len() == 32,
    ensures
        fanout_matches(r@, entries@),
{
    let mut fanout: Vec<usize> = Vec::new();
    let mut k: usize = 0;
    let mut b: usize = 0;
    while b < FANOUT_SIZE
        invariant
            b <= 256,
            k <= entries@.len(),
            fanout@.len() == b,
            sorted_entries(entries@),
            forall|i: int| 0 <= i < entries@.len() ==> (#[trigger] entries@[i]).hash@.len() == 32,
            forall|c: int| 0 <= c < b ==> #[trigger] fanout_bucket_ok(fanout@, entries@, c),
            forall|i: int| 0 <= i < k ==> #[trigger] entries@[i].hash@[0] < b,
            forall|i: int| k <= i < entries@.len() ==> #[trigger] entries@[i].hash@[0] >= b,
        decreases 256 - b,
    {
        while k < entries.len() && entries[k].hash[0] as usize <= b
            invariant
                b < 256,
                k <= entries@.len(),
                sorted_entries(entries@),
                forall|i: int| 0 <= i < entries@.len() ==> (#[trigger] entries@[i]).hash@.len() == 32,
                forall|i: int| 0 <= i < k ==> #[trigger] entries@[i].hash@[0] <= b,
                forall|i: int| k <= i < entries@.len() ==> #[trigger] entries@[i].hash@[0] >= b,
            decreases entries@.len() - k,
        {
            k = k + 1;
        }
        proof {
            assert forall|i: int| k <= i < entries@.len() implies #[trigger] entries@[i].hash@[0] > b by {
                if i > k {
                    assert(lex_lt(entries@[k as int].hash@, entries@[i].hash@));
                }
            }
        }
        let ghost old_f = fanout@;
        fanout.push(k);
        proof {
            assert forall|c: int| 0 <= c <= b implies #[trigger] fanout_bucket_ok(fanout@, entries@, c) by {
                if c < b {
                    assert(fanout_bucket_ok(old_f, entries@, c));
                    assert(fanout@[c] == old_f[c]);
                }
            }
        }
        b = b + 1;
    }
    fanout
}

} // verus!
