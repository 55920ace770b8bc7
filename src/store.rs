//! The blob store: loose blobs addressed by their content hash, and sealed packs.

use vstd::prelude::*;
use vstd::slice::slice_to_vec;
use crate::hash::{HashId, Cmp, blake2b_256_of, compare_hash, hash_of};
use crate::pack::{Blob, Pack, build_pack, distinct_blobs, pack_bytes, records_bytes, contents_of,
    distinct_digests, lemma_pack_bytes_records};

verus! {

/// Failures of the store.
#[derive(PartialEq, Eq, Structural, Clone, Copy, Debug)]
pub enum StorageError {
    /// No blob with the hash is stored.
    NotFound,
    /// The underlying durable storage failed.
    IoFailure,
    /// A pack or its index does not have the expected structure.
    CorruptPack,
}

/// How a pack run selects and treats the loose blobs.
#[derive(Clone, Copy, Debug)]
pub struct PackParameters {
    pub limit_nb_blobs: Option<usize>,
    pub limit_size: Option<usize>,
    pub delete_blobs_after_pack: bool,
}

/// Total number of bytes of the blobs.
pub open spec fn blobs_size(s: Seq<Blob>) -> nat
    decreases s.len(),
{
    if s.len() == 0 {
        0
    } else {
        blobs_size(s.drop_last()) + s.last().data@.len()
    }
}

/// The selection respects the limits of the parameters.
pub open spec fn within_limits(sel: Seq<Blob>, params: PackParameters) -> bool {
    &&& (params.limit_nb_blobs matches Some(n) ==> sel.len() <= n)
    &&& (params.limit_size matches Some(m) ==> blobs_size(sel) <= m)
}

/// `k` is the length of the longest prefix of `loose` within the limits.
pub open spec fn selection_len(loose: Seq<Blob>, params: PackParameters, k: int) -> bool {
    &&& 0 <= k <= loose.len()
    &&& within_limits(loose.take(k), params)
    &&& (k == loose.len() || !within_limits(loose.take(k + 1), params))
}

/// The store: loose blobs in the order they were written, and sealed packs.
pub struct Storage {
    pub loose: Vec<Blob>,
    pub packs: Vec<Pack>,
}

impl Storage {
    /// A loose blob holds `b` under `h`.
    pub open spec fn loose_holds(&self, h: Seq<u8>, b: Seq<u8>) -> bool {
        exists|i: int| 0 <= i < self.loose@.len() && #[trigger] self.loose@[i].hash@ == h && self.loose@[i].data@ == b
    }

    /// The store holds `b` under `h`, loose or in a pack.
    pub open spec fn holds(&self, h: Seq<u8>, b: Seq<u8>) -> bool {
        self.loose_holds(h, b) || exists|k: int| 0 <= k < self.packs@.len() && #[trigger] self.packs@[k].holds(h, b)
    }

    /// Some blob is stored under `h`.
    pub open spec fn known(&self, h: Seq<u8>) -> bool {
        exists|b: Seq<u8>| #[trigger] self.holds(h, b)
    }

    pub open spec fn wf(&self) -> bool {
        &&& forall|k: int| 0 <= k < self.packs@.len() ==> (#[trigger] self.packs@[k]).wf()
        &&& distinct_blobs(self.loose@)
        &&& forall|h: Seq<u8>, b1: Seq<u8>, b2: Seq<u8>|
            #[trigger] self.holds(h, b1) && #[trigger] self.holds(h, b2) ==> b1 == b2
        &&& forall|h: Seq<u8>, b: Seq<u8>| #[trigger] self.holds(h, b) ==> h == blake2b_256_of(b)
    }

    /// The outcome of writing `data`: its hash is `h`; if the store already
    /// knew `h` nothing changes, else one loose blob is appended.
    pub open spec fn write_outcome(self, data: Seq<u8>, h: HashId, post: Storage) -> bool {
        &&& h@ == blake2b_256_of(data)
        &&& self.known(h@) ==> post == self
        &&& !self.known(h@) ==> {
            &&& post.packs == self.packs
            &&& post.loose@.len() == self.loose@.len() + 1
            &&& post.loose@.take(self.loose@.len() as int) == self.loose@
            &&& post.loose@.last().hash == h
            &&& post.loose@.last().data@ == data
        }
    }

    /// The outcome of a pack run that returned the pack identifier `id`.
    pub open spec fn pack_outcome(self, params: PackParameters, id: HashId, post: Storage) -> bool {
        exists|k: int| {
            &&& #[trigger] selection_len(self.loose@, params, k)
            &&& post.loose@ == if params.delete_blobs_after_pack {
                self.loose@.subrange(k, self.loose@.len() as int)
            } else {
                self.loose@
            }
            &&& post.packs@.len() == self.packs@.len() + 1
            &&& post.packs@.take(self.packs@.len() as int) == self.packs@
            &&& post.packs@.last().id == id
            &&& post.packs@.last().data@ == pack_bytes(self.loose@.take(k))
            &&& id@ == blake2b_256_of(post.packs@.last().data@)
            &&& forall|h: Seq<u8>, b: Seq<u8>| #[trigger] post.packs@.last().holds(h, b) <==>
                exists|i: int| 0 <= i < k && #[trigger] self.loose@[i].hash@ == h && self.loose@[i].data@ == b
            &&& forall|h: Seq<u8>, b: Seq<u8>| #[trigger] post.holds(h, b) <==> self.holds(h, b)
        }
    }

    /// An empty store.
    pub fn new() -> (r: Storage)
        ensures
            r.wf(),
            r.loose@.len() == 0,
            r.packs@.len() == 0,
            forall|h: Seq<u8>, b: Seq<u8>| !r.holds(h, b),
    {
        Storage { loose: Vec::new(), packs: Vec::new() }
    }

    /// Position of the loose blob with hash `h`, if any.
    fn find_loose(&self, h: &HashId) -> (r: Option<usize>)
        ensures
            r matches Some(i) ==> i < self.loose@.len() && self.loose@[i as int].hash@ == h@,
            r is None ==> forall|i: int| 0 <= i < self.loose@.len() ==> #[trigger] self.loose@[i].hash@ != h@,
    {
        let mut i: usize = 0;
        while i < self.loose.len()
            invariant
                i <= self.loose@.len(),
                forall|j: int| 0 <= j < i ==> #[trigger] self.loose@[j].hash@ != h@,
            decreases self.loose@.len() - i,
        {
            if compare_hash(&self.loose[i].hash, h) == Cmp::Equal {
                return Some(i);
            }
            i = i + 1;
        }
        None
    }

    /// The bytes stored under `h`, from the loose blobs first, then from the packs.
    pub fn read(&self, h: &HashId) -> (r: Result<Vec<u8>, StorageError>)
        requires
            self.wf(),
        ensures
            r matches Ok(v) ==> self.holds(h@, v@),
            r is Ok <==> self.known(h@),
            r matches Err(e) ==> e == StorageError::NotFound,
    {
        match self.find_loose(h) {
            Some(i) => {
                let v = slice_to_vec(self.loose[i].data.as_slice());
                proof {
                    assert(self.loose_holds(h@, v@));
                    assert(self.holds(h@, v@));
                }
                return Ok(v);
            },
            None => {},
        }
        let mut k: usize = 0;
        while k < self.packs.len()
            invariant
                self.wf(),
                k <= self.packs@.len(),
                forall|i: int| 0 <= i < self.loose@.len() ==> #[trigger] self.loose@[i].hash@ != h@,
                forall|j: int, b: Seq<u8>| 0 <= j < k ==> !(#[trigger] self.packs@[j].holds(h@, b)),
            decreases self.packs@.len() - k,
        {
            match self.packs[k].lookup_blob(h) {
                Some(v) => {
                    proof {
                        assert(self.holds(h@, v@));
                    }
                    return Ok(v);
                },
                None => {},
            }
            k = k + 1;
        }
        proof {
            assert forall|b: Seq<u8>| !self.holds(h@, b) by {
                if self.loose_holds(h@, b) {
                    let i = choose|i: int| 0 <= i < self.loose@.len() && #[trigger] self.loose@[i].hash@ == h@ && self.loose@[i].data@ == b;
                }
            }
        }
        Err(StorageError::NotFound)
    }

    /// Whether some blob is stored under `h`.
    pub fn has_blob(&self, h: &HashId) -> (r: bool)
        requires
            self.wf(),
        ensures
            r == self.known(h@),
    {
        self.read(h).is_ok()
    }

    /// The hashes of the loose blobs, in the order they were written.
    pub fn list_loose(&self) -> (r: Vec<HashId>)
        ensures
            r@.len() == self.loose@.len(),
            forall|i: int| 0 <= i < r@.len() ==> #[trigger] r@[i] == self.loose@[i].hash,
    {
        let mut r: Vec<HashId> = Vec::new();
        let mut i: usize = 0;
        while i < self.loose.len()
            invariant
                i <= self.loose@.len(),
                r@.len() == i,
                forall|j: int| 0 <= j < i ==> #[trigger] r@[j] == self.loose@[j].hash,
            decreases self.loose@.len() - i,
        {
            r.push(self.loose[i].hash);
            i = i + 1;
        }
        r
    }

    /// Stores `data` as a loose blob unless its hash is already known, and
    /// returns that hash.
    pub fn write(&mut self, data: &[u8]) -> (r: HashId)
        requires
            old(self).wf(),
        ensures
            final(self).wf(),
            old(self).write_outcome(data@, r, *final(self)),
            final(self).holds(r@, data@) || old(self).known(r@),
    {
        let h = hash_of(data);
        if self.has_blob(&h) {
            return h;
        }
        let ghost pre = *self;
        let blob = Blob { hash: h, data: slice_to_vec(data) };
        self.loose.push(blob);
        proof {
            let n = pre.loose@.len() as int;
            assert(self.loose@.take(n) =~= pre.loose@);
            assert(self.loose@[n].hash@ == h@);
            assert(self.loose_holds(h@, data@));
            assert forall|x: Seq<u8>, y: Seq<u8>| #[trigger] self.holds(x, y) <==> pre.holds(x, y) || (x == h@ && y == data@) by {
                if self.loose_holds(x, y) {
                    let i = choose|i: int| 0 <= i < self.loose@.len() && #[trigger] self.loose@[i].hash@ == x && self.loose@[i].data@ == y;
                    if i < n {
                        assert(pre.loose@[i] == self.loose@[i]);
                    }
                }
                if pre.loose_holds(x, y) {
                    let i = choose|i: int| 0 <= i < pre.loose@.len() && #[trigger] pre.loose@[i].hash@ == x && pre.loose@[i].data@ == y;
                    assert(self.loose@[i] == pre.loose@[i]);
                }
                if exists|k: int| 0 <= k < pre.packs@.len() && #[trigger] pre.packs@[k].holds(x, y) {
                    let k = choose|k: int| 0 <= k < pre.packs@.len() && #[trigger] pre.packs@[k].holds(x, y);
                    assert(self.packs@[k].holds(x, y));
                }
            }
            assert forall|i: int, j: int| 0 <= i < self.loose@.len() && 0 <= j < self.loose@.len() && i != j
                implies #[trigger] self.loose@[i].hash@ != #[trigger] self.loose@[j].hash@ by {
                if i == n {
                    assert(pre.holds(pre.loose@[j].hash@, pre.loose@[j].data@));
                } else if j == n {
                    assert(pre.holds(pre.loose@[i].hash@, pre.loose@[i].data@));
                }
            }
        }
        h
    }

    /// Seals the longest prefix of the loose blobs within the limits into a
    /// new pack, drops those loose copies if asked, and returns the pack's
    /// identifier. Every blob stays readable with the same bytes.
    pub fn pack_blobs(&mut self, params: &PackParameters) -> (r: HashId)
        requires
            old(self).wf(),
        ensures
            final(self).wf(),
            old(self).pack_outcome(*params, r, *final(self)),
    {
        let k = self.select_for_pack(params);
        let ghost pre = *self;
        proof {
            assert forall|a: int, b: int| 0 <= a < k && 0 <= b < k && a != b
                implies #[trigger] self.loose@.take(k as int)[a].hash@ != #[trigger] self.loose@.take(k as int)[b].hash@ by {
                assert(self.loose@[a].hash@ != self.loose@[b].hash@);
            }
        }
        let pack = build_pack(&self.loose, k);
        let id = pack.id;
        if params.delete_blobs_after_pack {
            let rest = self.loose.split_off(k);
            self.loose = rest;
        }
        self.packs.push(pack);
        proof {
            let np = pre.packs@.len() as int;
            assert(self.packs@.take(np) =~= pre.packs@);
            assert(self.packs@[np] == pack);
            let off: int = if params.delete_blobs_after_pack { k as int } else { 0 };
            assert forall|i: int| 0 <= i < self.loose@.len() implies #[trigger] self.loose@[i] == pre.loose@[i + off] by {}
            assert forall|x: Seq<u8>, y: Seq<u8>| #[trigger] self.holds(x, y) <==> pre.holds(x, y) by {
                if self.loose_holds(x, y) {
                    let i = choose|i: int| 0 <= i < self.loose@.len() && #[trigger] self.loose@[i].hash@ == x && self.loose@[i].data@ == y;
                    assert(pre.loose@[i + off].hash@ == x);
                }
                if exists|j: int| 0 <= j < self.packs@.len() && #[trigger] self.packs@[j].holds(x, y) {
                    let j = choose|j: int| 0 <= j < self.packs@.len() && #[trigger] self.packs@[j].holds(x, y);
                    if j < np {
                        assert(pre.packs@[j] == self.packs@[j]);
                    } else {
                        let i = choose|i: int| 0 <= i < k && #[trigger] pre.loose@[i].hash@ == x && pre.loose@[i].data@ == y;
                        assert(pre.loose_holds(x, y));
                    }
                }
                if pre.loose_holds(x, y) {
                    let i = choose|i: int| 0 <= i < pre.loose@.len() && #[trigger] pre.loose@[i].hash@ == x && pre.loose@[i].data@ == y;
                    if i < k {
                        assert(pack.holds(x, y));
                        assert(self.packs@[np].holds(x, y));
                    } else {
                        assert(self.loose@[i - off] == pre.loose@[i]);
                        assert(self.loose_holds(x, y));
                    }
                }
                if exists|j: int| 0 <= j < pre.packs@.len() && #[trigger] pre.packs@[j].holds(x, y) {
                    let j = choose|j: int| 0 <= j < pre.packs@.len() && #[trigger] pre.packs@[j].holds(x, y);
                    assert(self.packs@[j].holds(x, y));
                }
            }
            assert forall|a: int, b: int| 0 <= a < self.loose@.len() && 0 <= b < self.loose@.len() && a != b
                implies #[trigger] self.loose@[a].hash@ != #[trigger] self.loose@[b].hash@ by {
                assert(pre.loose@[a + off].hash@ != pre.loose@[b + off].hash@);
            }
            assert forall|j: int| 0 <= j < self.packs@.len() implies (#[trigger] self.packs@[j]).wf() by {
                if j < np {
                    assert(pre.packs@[j] == self.packs@[j]);
                }
            }
            assert(self.packs@.last() == pack);
            assert(selection_len(pre.loose@, *params, k as int));
        }
        id
    }

    /// Length of the longest prefix of the loose blobs within the limits.
    fn select_for_pack(&self, params: &PackParameters) -> (k: usize)
        ensures
            selection_len(self.loose@, *params, k as int),
    {
        let mut k: usize = 0;
        let mut total: usize = 0;
        loop
            invariant
                k <= self.loose@.len(),
                within_limits(self.loose@.take(k as int), *params),
                params.limit_size is Some ==> total == blobs_size(self.loose@.take(k as int)),
            ensures
                selection_len(self.loose@, *params, k as int),
            decreases self.loose@.len() - k,
        {
            if k == self.loose.len() {
                break;
            }
            let ghost next = self.loose@.take(k + 1);
            proof {
                assert(next.drop_last() =~= self.loose@.take(k as int));
            }
            match params.limit_nb_blobs {
                Some(n) => {
                    if k >= n {
                        break;
                    }
                },
                None => {},
            }
            match params.limit_size {
                Some(m) => {
                    match total.checked_add(self.loose[k].data.len()) {
                        Some(t) => {
                            if t > m {
                                break;
                            }
                            total = t;
                        },
                        None => {
                            break;
                        },
                    }
                },
                None => {},
            }
            k = k + 1;
        }
        k
    }
}

/// Writing the same bytes twice gives the same hash both times, and the
/// second write leaves the store as the first left it.
pub proof fn lemma_write_idempotent(s1: Storage, b: Seq<u8>, h1: HashId, s2: Storage, h2: HashId, s3: Storage)
    requires
        s1.wf(),
        s1.write_outcome(b, h1, s2),
        s2.write_outcome(b, h2, s3),
    ensures
        h1@ == h2@,
        s3 == s2,
{
    if !s1.known(h1@) {
        let n = s1.loose@.len() as int;
        assert(s2.loose@[n].hash@ == h1@);
        assert(s2.loose_holds(h1@, b));
        assert(s2.holds(h1@, b));
    }
}

/// Reading the hash that a write returned gives back the written bytes,
/// unless other bytes with that same hash were stored before.
pub proof fn lemma_round_trip(s1: Storage, b: Seq<u8>, h: HashId, s2: Storage)
    requires
        s1.wf(),
        s2.wf(),
        s1.write_outcome(b, h, s2),
        forall|v: Seq<u8>| #[trigger] s1.holds(h@, v) ==> v == b,
    ensures
        s2.known(h@),
        forall|v: Seq<u8>| #[trigger] s2.holds(h@, v) <==> v == b,
{
    if s1.known(h@) {
        let v = choose|v: Seq<u8>| #[trigger] s1.holds(h@, v);
        assert(s2.holds(h@, b));
    } else {
        let n = s1.loose@.len() as int;
        assert(s2.loose@[n].hash@ == h@);
        assert(s2.loose_holds(h@, b));
        assert(s2.holds(h@, b));
    }
}

/// Every blob stored before a pack run is stored after it with the same
/// bytes and no other; the blobs that the run selected are in its pack.
pub proof fn lemma_pack_transparency(
    s1: Storage,
    params: PackParameters,
    id: HashId,
    s2: Storage,
    h: Seq<u8>,
    x: Seq<u8>,
)
    requires
        s1.wf(),
        s2.wf(),
        s1.pack_outcome(params, id, s2),
        s1.holds(h, x),
    ensures
        s2.holds(h, x),
        forall|v: Seq<u8>| #[trigger] s2.holds(h, v) <==> v == x,
        s1.loose_holds(h, x) ==> s2.loose_holds(h, x) || s2.packs@.last().holds(h, x),
{
    let k = choose|k: int| #[trigger] selection_len(s1.loose@, params, k) && {
        &&& s2.loose@ == if params.delete_blobs_after_pack {
            s1.loose@.subrange(k, s1.loose@.len() as int)
        } else {
            s1.loose@
        }
        &&& s2.packs@.len() == s1.packs@.len() + 1
        &&& s2.packs@.take(s1.packs@.len() as int) == s1.packs@
        &&& s2.packs@.last().id == id
        &&& s2.packs@.last().data@ == pack_bytes(s1.loose@.take(k))
        &&& id@ == blake2b_256_of(s2.packs@.last().data@)
        &&& forall|h: Seq<u8>, b: Seq<u8>| #[trigger] s2.packs@.last().holds(h, b) <==>
            exists|i: int| 0 <= i < k && #[trigger] s1.loose@[i].hash@ == h && s1.loose@[i].data@ == b
        &&& forall|h: Seq<u8>, b: Seq<u8>| #[trigger] s2.holds(h, b) <==> s1.holds(h, b)
    };
    assert(s2.holds(h, x));
    if s1.loose_holds(h, x) {
        let i = choose|i: int| 0 <= i < s1.loose@.len() && #[trigger] s1.loose@[i].hash@ == h && s1.loose@[i].data@ == x;
        if i >= k && params.delete_blobs_after_pack {
            assert(s2.loose@[i - k] == s1.loose@[i]);
        } else if !params.delete_blobs_after_pack {
            assert(s2.loose@[i] == s1.loose@[i]);
        }
    }
}

/// Reading the hash that a write returned still gives back the written
/// bytes after a later pack run, under the same condition as the plain
/// round trip: no other bytes with that hash were stored before the write.
pub proof fn lemma_round_trip_across_pack(
    s1: Storage,
    b: Seq<u8>,
    h: HashId,
    s2: Storage,
    params: PackParameters,
    id: HashId,
    s3: Storage,
)
    requires
        s1.wf(),
        s2.wf(),
        s3.wf(),
        s1.write_outcome(b, h, s2),
        forall|v: Seq<u8>| #[trigger] s1.holds(h@, v) ==> v == b,
        s2.pack_outcome(params, id, s3),
    ensures
        s3.known(h@),
        forall|v: Seq<u8>| #[trigger] s3.holds(h@, v) <==> v == b,
{
    lemma_round_trip(s1, b, h, s2);
    lemma_pack_transparency(s2, params, id, s3, h@, b);
    assert(s3.holds(h@, b));
}

/// The loose blobs of a well-formed store have distinct contents, so the
/// bytes of a pack sealed from any prefix of them are read back by
/// `Pack::from_bytes` without error.
pub proof fn lemma_sealed_pack_parses(s: Storage, k: int)
    requires
        s.wf(),
        0 <= k <= s.loose@.len(),
    ensures
        pack_bytes(s.loose@.take(k)) == records_bytes(contents_of(s.loose@.take(k))),
        distinct_digests(contents_of(s.loose@.take(k))),
{
    let t = s.loose@.take(k);
    let c = contents_of(t);
    lemma_pack_bytes_records(t);
    assert forall|i: int, j: int| 0 <= i < c.len() && 0 <= j < c.len() && i != j
        implies blake2b_256_of(#[trigger] c[i]) != blake2b_256_of(#[trigger] c[j]) by {
        assert(c[i] == s.loose@[i].data@);
        assert(c[j] == s.loose@[j].data@);
        assert(s.loose_holds(s.loose@[i].hash@, s.loose@[i].data@));
        assert(s.holds(s.loose@[i].hash@, s.loose@[i].data@));
        assert(s.loose_holds(s.loose@[j].hash@, s.loose@[j].data@));
        assert(s.holds(s.loose@[j].hash@, s.loose@[j].data@));
    }
}

} // verus!
