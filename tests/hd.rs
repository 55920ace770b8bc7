use wallet_cli::hd::{addresses_for, derive_public_child, AddrType, Seed, Wallet, WalletError, HARDENED};

fn hex(bytes: &[u8]) -> String {
    bytes.iter().map(|b| format!("{:02x}", b)).collect()
}

fn zero_wallet() -> Wallet {
    Wallet::new_from_seed(&Seed::from_bytes([0u8; 32]))
}

#[test]
fn seed_from_slice_checks_length() {
    assert_eq!(Seed::from_slice(&[1u8; 31]).err(), Some(WalletError::InvalidSeedLength));
    assert_eq!(Seed::from_slice(&[1u8; 33]).err(), Some(WalletError::InvalidSeedLength));
    let s = Seed::from_slice(&[5u8; 32]).ok().unwrap();
    assert_eq!(s.bytes, [5u8; 32]);
}

#[test]
fn master_key_depends_on_seed_alone() {
    let a = zero_wallet();
    let b = zero_wallet();
    assert_eq!(a.master.xprv.to_vec(), b.master.xprv.to_vec());
    assert_eq!(a.master.depth, 0);
    assert_eq!(a.master.parent_fingerprint, [0u8; 4]);
    let c = Wallet::new_from_seed(&Seed::from_bytes([1u8; 32]));
    assert_ne!(a.master.xprv.to_vec(), c.master.xprv.to_vec());
    assert_ne!(a.master.xprv[0..32].to_vec(), [0u8; 32].to_vec());
}

#[test]
fn derive_child_records_its_place() {
    let w = zero_wallet();
    let k = w.master.derive_child(3, true).ok().unwrap();
    assert_eq!(k.depth, 1);
    assert_eq!(k.child_number, 3 + HARDENED);
    assert_eq!(k.parent_fingerprint, w.master.fingerprint());
    assert_ne!(k.xprv.to_vec(), w.master.xprv.to_vec());
    let soft = w.master.derive_child(3, false).ok().unwrap();
    assert_eq!(soft.child_number, 3);
    assert_ne!(soft.xprv.to_vec(), k.xprv.to_vec());
    let again = w.master.derive_child(3, true).ok().unwrap();
    assert_eq!(again.xprv.to_vec(), k.xprv.to_vec());
}

#[test]
fn derive_child_rejects_hardened_range_index() {
    let w = zero_wallet();
    assert_eq!(w.master.derive_child(HARDENED, false).err(), Some(WalletError::IndexOutOfRange));
    assert_eq!(w.master.derive_child(u32::MAX, true).err(), Some(WalletError::IndexOutOfRange));
}

#[test]
fn public_key_is_not_the_private_material() {
    let w = zero_wallet();
    let pk = w.master.public_key();
    assert_ne!(pk[0..32].to_vec(), w.master.xprv[0..32].to_vec());
    assert_eq!(pk[32..64].to_vec(), w.master.xprv[64..96].to_vec());
}

#[test]
fn addresses_are_deterministic() {
    let a = zero_wallet().gen_addresses(0, AddrType::External, &vec![0, 1, 2]).ok().unwrap();
    let b = zero_wallet().gen_addresses(0, AddrType::External, &vec![0, 1, 2]).ok().unwrap();
    assert_eq!(a.len(), 3);
    for (x, y) in a.iter().zip(b.iter()) {
        assert_eq!(x.to_bytes(), y.to_bytes());
        assert_eq!(x.index, y.index);
    }
}

#[test]
fn zero_seed_account_zero_external_addresses() {
    let w = zero_wallet();
    let a = w.gen_addresses(0, AddrType::External, &vec![0, 1, 2]).ok().unwrap();
    assert_eq!(a.len(), 3);
    for (i, addr) in a.iter().enumerate() {
        assert_eq!(addr.index, i as u32);
        assert_eq!(addr.account, 0);
        assert_eq!(addr.addr_type, AddrType::External);
        assert_eq!(addr.to_bytes().len(), 64);
    }
    assert_eq!(
        hex(&a[0].to_bytes()),
        "9c68d476a8335301e0e128a139da8b764044b4dd56e1d6bd2b541eaadf749452b7413659caa71c37138a29dd293fedda6d9ee662f7dd4e33d60aa66f1b13b2e5"
    );
    assert_eq!(
        hex(&a[1].to_bytes()),
        "6127821e93ffde2bad94aabd0c799ed77d58e7fdb7e20f6693a1683ee0fa318701a05b74c886fb61e222c0138b8d9203b6a3d6b485dd072fdcfef423b48c02a0"
    );
    assert_eq!(
        hex(&a[2].to_bytes()),
        "b1e89adb1d7a42c32ddb606ca99472845502fb0a828b09dee28985407c558d28a4f549450dc20ede400da678a8ee39eafcaaba4ca80bcf2a4f0d0305c0b6e8cb"
    );
    assert_ne!(a[0].to_bytes(), a[1].to_bytes());
    assert_ne!(a[1].to_bytes(), a[2].to_bytes());
    assert_ne!(a[0].to_bytes(), a[2].to_bytes());
    let again = zero_wallet().gen_addresses(0, AddrType::External, &vec![2, 0]).ok().unwrap();
    assert_eq!(again[0].to_bytes(), a[2].to_bytes());
    assert_eq!(again[1].to_bytes(), a[0].to_bytes());
}

#[test]
fn addresses_follow_the_derivation_path() {
    let w = zero_wallet();
    let account = w.account_key(0).ok().unwrap();
    assert_eq!(account.depth, 3);
    let chain = account.derive_child(0, false).ok().unwrap();
    let key = chain.derive_child(5, false).ok().unwrap();
    let a = w.gen_addresses(0, AddrType::External, &vec![5]).ok().unwrap();
    assert_eq!(a[0].public_key.to_vec(), key.public_key().to_vec());
}

#[test]
fn external_and_internal_chains_differ() {
    let w = zero_wallet();
    let indices: Vec<u32> = (0..300).collect();
    let ext = w.gen_addresses(0, AddrType::External, &indices).ok().unwrap();
    let int = w.gen_addresses(0, AddrType::Internal, &indices).ok().unwrap();
    for (e, i) in ext.iter().zip(int.iter()) {
        assert_ne!(e.to_bytes(), i.to_bytes());
    }
}

#[test]
fn distinct_indices_give_distinct_addresses() {
    let w = zero_wallet();
    let indices: Vec<u32> = (0..1000).collect();
    let ext = w.gen_addresses(0, AddrType::External, &indices).ok().unwrap();
    let mut all: Vec<Vec<u8>> = ext.iter().map(|a| a.to_bytes()).collect();
    all.sort();
    all.dedup();
    assert_eq!(all.len(), 1000);
}

#[test]
fn duplicate_indices_give_identical_addresses() {
    let a = zero_wallet().gen_addresses(1, AddrType::Internal, &vec![4, 4, 7]).ok().unwrap();
    assert_eq!(a[0].to_bytes(), a[1].to_bytes());
    assert_ne!(a[0].to_bytes(), a[2].to_bytes());
}

#[test]
fn gen_addresses_rejects_out_of_range_input() {
    let w = zero_wallet();
    assert_eq!(w.gen_addresses(HARDENED, AddrType::External, &vec![0]).err(), Some(WalletError::IndexOutOfRange));
    assert_eq!(w.gen_addresses(0, AddrType::External, &vec![0, HARDENED]).err(), Some(WalletError::IndexOutOfRange));
    assert_eq!(w.account_key(HARDENED).err(), Some(WalletError::IndexOutOfRange));
}

#[test]
fn accounts_give_different_addresses() {
    let w = zero_wallet();
    let a = w.gen_addresses(0, AddrType::External, &vec![0]).ok().unwrap();
    let b = w.gen_addresses(1, AddrType::External, &vec![0]).ok().unwrap();
    assert_ne!(a[0].to_bytes(), b[0].to_bytes());
}

#[test]
fn addresses_for_needs_wallet_and_account() {
    assert_eq!(addresses_for(&None, Some(0), AddrType::External, None).err(), Some(WalletError::WalletNotInitialized));
    let w = Some(zero_wallet());
    assert_eq!(addresses_for(&w, None, AddrType::External, None).err(), Some(WalletError::AccountNotFound));
    let d = addresses_for(&w, Some(0), AddrType::External, None).ok().unwrap();
    let direct = zero_wallet().gen_addresses(0, AddrType::External, &vec![0]).ok().unwrap();
    assert_eq!(d.len(), 1);
    assert_eq!(d[0].to_bytes(), direct[0].to_bytes());
    let two = addresses_for(&w, Some(0), AddrType::Internal, Some(vec![3, 1])).ok().unwrap();
    assert_eq!(two.len(), 2);
    assert_eq!(two[1].index, 1);
}

#[test]
fn generated_wallets_differ() {
    let a = Wallet::generate();
    let b = Wallet::generate();
    assert_eq!(a.master.depth, 0);
    assert_ne!(a.master.xprv.to_vec(), b.master.xprv.to_vec());
}

#[test]
fn public_derivation_matches_private_derivation() {
    let w = zero_wallet();
    let chain = w.account_key(0).ok().unwrap().derive_child(0, false).ok().unwrap();
    for i in [0u32, 1, 17] {
        let from_public = derive_public_child(&chain.public_key(), i).ok().unwrap();
        let from_private = chain.derive_child(i, false).ok().unwrap().public_key();
        assert_eq!(from_public.to_vec(), from_private.to_vec());
    }
    assert_ne!(derive_public_child(&chain.public_key(), 0).ok().unwrap().to_vec(), chain.public_key().to_vec());
}

#[test]
fn public_derivation_rejects_hardened_index() {
    let w = zero_wallet();
    assert_eq!(derive_public_child(&w.master.public_key(), HARDENED).err(), Some(WalletError::IndexOutOfRange));
}

#[test]
fn derive_child_rejects_unusable_private_key() {
    let mut k = zero_wallet().master;
    k.xprv[31] = 0x90;
    assert_eq!(k.derive_child(0, true).err(), Some(WalletError::InvalidPrivateKey));
    assert_eq!(k.derive_child(HARDENED, true).err(), Some(WalletError::IndexOutOfRange));
}

#[test]
fn gen_addresses_rejects_unusable_master_key() {
    let mut w = zero_wallet();
    w.master.xprv[31] = 0xf0;
    assert_eq!(w.gen_addresses(0, AddrType::External, &vec![0]).err(), Some(WalletError::InvalidPrivateKey));
    assert_eq!(w.gen_addresses(0, AddrType::External, &vec![HARDENED]).err(), Some(WalletError::IndexOutOfRange));
    assert_eq!(w.account_key(0).err(), Some(WalletError::InvalidPrivateKey));
}

#[test]
fn master_key_is_clamped_and_keeps_the_chain_code_half() {
    let w = zero_wallet();
    assert_eq!(w.master.xprv[0] % 8, 0);
    assert!(w.master.xprv[31] >= 0x40 && w.master.xprv[31] < 0x60);
    let g = Wallet::generate();
    assert_eq!(g.master.child_number, 0);
    assert_eq!(g.master.parent_fingerprint, [0u8; 4]);
    assert!(g.gen_addresses(0, AddrType::External, &vec![0]).is_ok());
}
