use wallet_cli::hash::{compare_hash, hash_of, Cmp};
use wallet_cli::index::{IndexEntry, PackIndex};
use wallet_cli::pack::{build_pack, Blob, Pack};
use wallet_cli::store::{PackParameters, Storage, StorageError};

fn unhex(s: &str) -> Vec<u8> {
    (0..s.len()).step_by(2).map(|i| u8::from_str_radix(&s[i..i + 2], 16).unwrap()).collect()
}

fn no_limits(delete: bool) -> PackParameters {
    PackParameters { limit_nb_blobs: None, limit_size: None, delete_blobs_after_pack: delete }
}

#[test]
fn hash_of_empty_is_blake2b_256() {
    let h = hash_of(&[]);
    assert_eq!(h.to_vec(), unhex("0e5751c026e543b2e8ab2eb06099daa1d1e5df47778f7787faab45cdf12fe3a8"));
}

#[test]
fn hash_of_differs_for_different_content() {
    assert_ne!(hash_of(b"one"), hash_of(b"two"));
    assert_eq!(hash_of(b"one"), hash_of(b"one"));
    assert_ne!(hash_of(&[0u8; 32]), [0u8; 32]);
}

#[test]
fn compare_hash_orders_bytewise() {
    let mut a = [0u8; 32];
    let mut b = [0u8; 32];
    assert_eq!(compare_hash(&a, &b), Cmp::Equal);
    b[31] = 1;
    assert_eq!(compare_hash(&a, &b), Cmp::Less);
    a[0] = 1;
    assert_eq!(compare_hash(&a, &b), Cmp::Greater);
}

fn entry(first: u8, last: u8, offset: usize, size: usize) -> IndexEntry {
    let mut hash = [0u8; 32];
    hash[0] = first;
    hash[31] = last;
    IndexEntry { hash, offset, size }
}

#[test]
fn index_sorts_and_counts_by_leading_byte() {
    let idx = PackIndex::new(vec![entry(7, 2, 30, 3), entry(1, 0, 0, 10), entry(7, 1, 20, 5), entry(255, 0, 40, 1)]);
    let (fanout, hashes) = idx.dump_index();
    assert_eq!(fanout.len(), 256);
    assert_eq!(fanout[0], 0);
    assert_eq!(fanout[1], 1);
    assert_eq!(fanout[6], 1);
    assert_eq!(fanout[7], 3);
    assert_eq!(fanout[254], 3);
    assert_eq!(fanout[255], 4);
    assert_eq!(hashes.len(), 4);
    assert_eq!(hashes[0], entry(1, 0, 0, 0).hash);
    assert_eq!(hashes[1], entry(7, 1, 0, 0).hash);
    assert_eq!(hashes[2], entry(7, 2, 0, 0).hash);
    assert_eq!(hashes[3], entry(255, 0, 0, 0).hash);
}

#[test]
fn index_lookup_returns_recorded_offset_and_size() {
    let recorded = vec![entry(7, 2, 30, 3), entry(1, 0, 0, 10), entry(7, 1, 20, 5), entry(255, 0, 40, 1)];
    let idx = PackIndex::new(recorded.clone());
    assert_eq!(idx.fanout[255], idx.len());
    for e in recorded.iter() {
        assert_eq!(idx.lookup(&e.hash), Some((e.offset, e.size)));
    }
    assert_eq!(idx.lookup(&entry(7, 3, 0, 0).hash), None);
    assert_eq!(idx.lookup(&entry(0, 0, 0, 0).hash), None);
}

#[test]
fn dump_index_of_empty_pack() {
    let idx = PackIndex::empty();
    let (fanout, hashes) = idx.dump_index();
    assert_eq!(fanout, vec![0usize; 256]);
    assert!(hashes.is_empty());
    let mut s = Storage::new();
    let id = s.pack_blobs(&no_limits(false));
    assert_eq!(s.packs.len(), 1);
    assert_eq!(s.packs[0].id, id);
    assert_eq!(id, hash_of(&[]));
    let (fanout, hashes) = s.packs[0].index.dump_index();
    assert_eq!(fanout, vec![0usize; 256]);
    assert!(hashes.is_empty());
}

#[test]
fn pack_bytes_are_length_prefixed_records() {
    let blobs = vec![
        Blob { hash: hash_of(b"ab"), data: b"ab".to_vec() },
        Blob { hash: hash_of(b"xyz"), data: b"xyz".to_vec() },
    ];
    let p = build_pack(&blobs, 2);
    assert_eq!(p.data, vec![0, 0, 0, 0, 0, 0, 0, 2, b'a', b'b', 0, 0, 0, 0, 0, 0, 0, 3, b'x', b'y', b'z']);
    assert_eq!(p.id, hash_of(&p.data));
    assert_eq!(p.lookup_blob(&hash_of(b"ab")), Some(b"ab".to_vec()));
    assert_eq!(p.lookup_blob(&hash_of(b"xyz")), Some(b"xyz".to_vec()));
    assert_eq!(p.index.lookup(&hash_of(b"xyz")), Some((18, 3)));
    assert_eq!(p.lookup_blob(&hash_of(b"none")), None);
}

#[test]
fn write_twice_is_idempotent() {
    let mut s = Storage::new();
    let h1 = s.write(b"hello");
    let h2 = s.write(b"hello");
    assert_eq!(h1, h2);
    assert_eq!(h1, hash_of(b"hello"));
    assert_eq!(s.list_loose(), vec![h1]);
}

#[test]
fn read_returns_written_bytes() {
    let mut s = Storage::new();
    let h = s.write(b"some bytes");
    let e = s.write(b"");
    assert_eq!(s.read(&h), Ok(b"some bytes".to_vec()));
    assert_eq!(s.read(&e), Ok(Vec::new()));
    assert!(s.has_blob(&h));
}

#[test]
fn read_of_unknown_hash_is_not_found() {
    let mut s = Storage::new();
    s.write(b"a");
    let unknown = hash_of(b"b");
    assert_eq!(s.read(&unknown), Err(StorageError::NotFound));
    assert!(!s.has_blob(&unknown));
}

#[test]
fn pack_keeps_every_blob_readable() {
    let mut s = Storage::new();
    let items: Vec<&[u8]> = vec![b"first", b"second", b"third", b"fourth"];
    let hashes: Vec<_> = items.iter().map(|b| s.write(b)).collect();
    let id = s.pack_blobs(&no_limits(true));
    assert!(s.list_loose().is_empty());
    assert_eq!(s.packs.len(), 1);
    assert_eq!(s.packs[0].id, id);
    assert_eq!(id, hash_of(&s.packs[0].data));
    for (h, b) in hashes.iter().zip(items.iter()) {
        assert_eq!(s.read(h), Ok(b.to_vec()));
        assert_eq!(s.packs[0].lookup_blob(h), Some(b.to_vec()));
    }
}

#[test]
fn pack_without_delete_keeps_loose_copies() {
    let mut s = Storage::new();
    let h1 = s.write(b"one");
    let h2 = s.write(b"two");
    s.pack_blobs(&no_limits(false));
    assert_eq!(s.list_loose(), vec![h1, h2]);
    assert_eq!(s.read(&h2), Ok(b"two".to_vec()));
    assert!(s.packs[0].lookup_blob(&h1).is_some());
}

#[test]
fn pack_with_count_limit_leaves_the_rest_loose() {
    let mut s = Storage::new();
    let h1 = s.write(b"blob one");
    let h2 = s.write(b"blob two");
    let h3 = s.write(b"blob three");
    let params = PackParameters { limit_nb_blobs: Some(2), limit_size: None, delete_blobs_after_pack: true };
    s.pack_blobs(&params);
    assert_eq!(s.list_loose(), vec![h3]);
    assert_eq!(s.packs[0].index.len(), 2);
    assert_eq!(s.packs[0].lookup_blob(&h1), Some(b"blob one".to_vec()));
    assert_eq!(s.packs[0].lookup_blob(&h2), Some(b"blob two".to_vec()));
    assert_eq!(s.packs[0].lookup_blob(&h3), None);
    assert_eq!(s.read(&h1), Ok(b"blob one".to_vec()));
    assert_eq!(s.read(&h2), Ok(b"blob two".to_vec()));
    assert_eq!(s.read(&h3), Ok(b"blob three".to_vec()));
}

#[test]
fn pack_with_size_limit_takes_the_longest_prefix() {
    let mut s = Storage::new();
    let h1 = s.write(b"1234");
    let h2 = s.write(b"5678");
    let h3 = s.write(b"9");
    let params = PackParameters { limit_nb_blobs: None, limit_size: Some(8), delete_blobs_after_pack: true };
    s.pack_blobs(&params);
    assert_eq!(s.list_loose(), vec![h3]);
    assert_eq!(s.packs[0].index.len(), 2);
    assert!(s.packs[0].lookup_blob(&h1).is_some());
    assert!(s.packs[0].lookup_blob(&h2).is_some());
    let params = PackParameters { limit_nb_blobs: None, limit_size: Some(0), delete_blobs_after_pack: true };
    s.pack_blobs(&params);
    assert_eq!(s.list_loose(), vec![h3]);
    assert_eq!(s.packs[1].index.len(), 0);
}

#[test]
fn write_after_pack_stores_nothing_new() {
    let mut s = Storage::new();
    let h = s.write(b"packed");
    s.pack_blobs(&no_limits(true));
    assert_eq!(s.write(b"packed"), h);
    assert!(s.list_loose().is_empty());
}

#[test]
fn pack_from_bytes_reads_back_a_built_pack() {
    let blobs = vec![
        Blob { hash: hash_of(b"left"), data: b"left".to_vec() },
        Blob { hash: hash_of(b""), data: Vec::new() },
        Blob { hash: hash_of(b"right"), data: b"right".to_vec() },
    ];
    let built = build_pack(&blobs, 3);
    let read = Pack::from_bytes(built.data.clone()).ok().unwrap();
    assert_eq!(read.id, built.id);
    assert_eq!(read.index.dump_index(), built.index.dump_index());
    assert_eq!(read.lookup_blob(&hash_of(b"right")), Some(b"right".to_vec()));
    assert_eq!(read.lookup_blob(&hash_of(b"")), Some(Vec::new()));
}

#[test]
fn pack_from_bytes_of_nothing_is_empty() {
    let p = Pack::from_bytes(Vec::new()).ok().unwrap();
    assert_eq!(p.index.len(), 0);
    assert_eq!(p.id, hash_of(&[]));
}

#[test]
fn pack_from_bytes_rejects_malformed_data() {
    assert_eq!(Pack::from_bytes(vec![0, 0, 0]).err(), Some(StorageError::CorruptPack));
    assert_eq!(Pack::from_bytes(vec![0, 0, 0, 0, 0, 0, 0, 5, 1, 2]).err(), Some(StorageError::CorruptPack));
    let twice = vec![0, 0, 0, 0, 0, 0, 0, 1, 9, 0, 0, 0, 0, 0, 0, 0, 1, 9];
    assert_eq!(Pack::from_bytes(twice).err(), Some(StorageError::CorruptPack));
}

#[test]
fn index_from_parts_accepts_a_well_formed_index() {
    let built = PackIndex::new(vec![entry(3, 0, 0, 1), entry(9, 0, 9, 2)]);
    let (fanout, _) = built.dump_index();
    let idx = PackIndex::from_parts(fanout, built.entries.clone()).ok().unwrap();
    assert_eq!(idx.lookup(&entry(9, 0, 0, 0).hash), Some((9, 2)));
}

#[test]
fn index_from_parts_rejects_inconsistent_data() {
    let built = PackIndex::new(vec![entry(3, 0, 0, 1), entry(9, 0, 9, 2)]);
    let (fanout, _) = built.dump_index();
    let mut wrong = fanout.clone();
    wrong[255] = 1;
    assert_eq!(PackIndex::from_parts(wrong, built.entries.clone()).err(), Some(StorageError::CorruptPack));
    assert_eq!(PackIndex::from_parts(vec![0; 255], Vec::new()).err(), Some(StorageError::CorruptPack));
    let unsorted = vec![entry(9, 0, 9, 2), entry(3, 0, 0, 1)];
    assert_eq!(PackIndex::from_parts(fanout, unsorted).err(), Some(StorageError::CorruptPack));
    assert!(PackIndex::from_parts(vec![0; 256], Vec::new()).is_ok());
}

#[test]
fn sealed_pack_bytes_read_back() {
    let mut s = Storage::new();
    let h1 = s.write(b"alpha");
    let h2 = s.write(b"beta");
    let id = s.pack_blobs(&no_limits(true));
    let p = Pack::from_bytes(s.packs[0].data.clone()).ok().unwrap();
    assert_eq!(p.id, id);
    assert_eq!(p.lookup_blob(&h1), Some(b"alpha".to_vec()));
    assert_eq!(p.lookup_blob(&h2), Some(b"beta".to_vec()));
}

#[test]
fn pack_holds_only_the_selected_blobs() {
    let mut s = Storage::new();
    let h1 = s.write(b"x1");
    let h2 = s.write(b"x2");
    let h3 = s.write(b"x3");
    let params = PackParameters { limit_nb_blobs: Some(2), limit_size: None, delete_blobs_after_pack: true };
    let id = s.pack_blobs(&params);
    let (_, listed) = s.packs[0].index.dump_index();
    assert_eq!(listed.len(), 2);
    assert!(listed.contains(&h1) && listed.contains(&h2) && !listed.contains(&h3));
    assert_eq!(s.packs[0].id, id);
}

#[test]
fn read_after_write_survives_packing() {
    let mut s = Storage::new();
    let h = s.write(b"kept");
    s.pack_blobs(&no_limits(true));
    assert_eq!(s.read(&h), Ok(b"kept".to_vec()));
}
