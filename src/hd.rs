//! Hierarchical-deterministic keys: a master key from a seed, child keys
//! along the path m / 44' / 1815' / account' / chain / index, and addresses.

use vstd::prelude::*;
use cryptoxide::mac::Mac;
use crate::hash::{blake2b_256_of, hash_of};

verus! {

/// Length in bytes of a seed.
pub const SEED_SIZE: usize = 32;

/// Child numbers from this one up are hardened.
pub const HARDENED: u32 = 0x8000_0000;

/// Purpose level of the derivation path.
pub const BIP44_PURPOSE: u32 = 44;

/// Coin type level of the derivation path.
pub const BIP44_COIN_TYPE: u32 = 1815;

/// Failures of wallet operations.
#[derive(PartialEq, Eq, Structural, Clone, Copy, Debug)]
pub enum WalletError {
    /// The seed does not have the required length.
    InvalidSeedLength,
    /// An account or address index does not fit below the hardened range.
    IndexOutOfRange,
    /// The operation needs a wallet and there is none.
    WalletNotInitialized,
    /// The account is unknown.
    AccountNotFound,
    /// Public derivation met a key that is not a valid point.
    InvalidPublicKey,
    /// A private key has the top bit of its scalar set, which the curve
    /// arithmetic does not handle.
    InvalidPrivateKey,
}

/// The chain of an address: for receiving, or for change.
#[derive(PartialEq, Eq, Structural, Clone, Copy, Debug)]
pub enum AddrType {
    External,
    Internal,
}

/// HMAC-SHA512 of `data` under `key`.
pub uninterp spec fn hmac_sha512_of(key: Seq<u8>, data: Seq<u8>) -> Seq<u8>;

/// The extended private key made from a 32-byte secret and a chain code.
pub uninterp spec fn xprv_from_secret_of(secret: Seq<u8>, chain_code: Seq<u8>) -> Seq<u8>;

/// The child of an extended private key at a child number (hardened from `HARDENED` up).
pub uninterp spec fn derived_xprv_of(xprv: Seq<u8>, child: u32) -> Seq<u8>;

/// The extended public key (point and chain code) of an extended private key.
pub uninterp spec fn xpub_of(xprv: Seq<u8>) -> Seq<u8>;

/// Relies on cryptoxide's `Hmac<Sha512>` (`new`, `input`, `raw_result`):
/// the HMAC-SHA512 code of `data` under `key`, 64 bytes.
#[verifier::external_body]
fn hmac_sha512(key: &[u8], data: &[u8]) -> (r: [u8; 64])
    ensures
        r@ == hmac_sha512_of(key@, data@),
{
    let mut mac = cryptoxide::hmac::Hmac::new(cryptoxide::sha2::Sha512::new(), key);
    mac.input(data);
    let mut out = [0u8; 64];
    mac.raw_result(&mut out);
    out
}

/// Relies on ed25519-bip32's `XPrv::from_nonextended_force`: the extended
/// key (SHA-512 of the secret, clamped: byte 0 cleared of its low three
/// bits, byte 31 masked to its low five bits and 0x40 set), then the chain
/// code copied unchanged, 96 bytes.
#[verifier::external_body]
fn xprv_from_secret(secret: &[u8; 32], chain_code: &[u8; 32]) -> (r: [u8; 96])
    ensures
        r@ == xprv_from_secret_of(secret@, chain_code@),
        r@[0] % 8 == 0,
        0x40 <= r@[31] < 0x60,
        r@.subrange(64, 96) == chain_code@,
{
    ed25519_bip32::XPrv::from_nonextended_force(secret, chain_code).into()
}

/// Relies on ed25519-bip32's `XPrv::derive` with the V2 scheme: the child
/// key at `child`, hardened when `child >= 0x8000_0000`. The scalar
/// arithmetic it uses asserts in debug builds when byte 31 of the key is
/// 0x90 or more, so the key must have that byte below 0x80.
#[verifier::external_body]
fn derive_xprv(xprv: &[u8; 96], child: u32) -> (r: [u8; 96])
    requires
        usable_key(xprv@),
    ensures
        r@ == derived_xprv_of(xprv@, child),
{
    let mut secret = [0u8; 64];
    secret.copy_from_slice(&xprv[0..64]);
    let mut chain_code = [0u8; 32];
    chain_code.copy_from_slice(&xprv[64..96]);
    let parent = ed25519_bip32::XPrv::from_extended_and_chaincode(&secret, &chain_code);
    parent.derive(ed25519_bip32::DerivationScheme::V2, child).into()
}

/// Relies on ed25519-bip32's `XPrv::public`: the public point and the chain
/// code, 64 bytes. The base-point multiplication asserts in debug builds
/// when byte 31 of the key is 0x90 or more, so the key must have that byte
/// below 0x80.
#[verifier::external_body]
fn xpub(xprv: &[u8; 96]) -> (r: [u8; 64])
    requires
        usable_key(xprv@),
    ensures
        r@ == xpub_of(xprv@),
{
    let mut secret = [0u8; 64];
    secret.copy_from_slice(&xprv[0..64]);
    let mut chain_code = [0u8; 32];
    chain_code.copy_from_slice(&xprv[64..96]);
    ed25519_bip32::XPrv::from_extended_and_chaincode(&secret, &chain_code).public().into()
}

/// The child of an extended public key at a non-hardened child number.
pub uninterp spec fn derived_xpub_of(xpub: Seq<u8>, child: u32) -> Seq<u8>;

/// Whether public derivation of `xpub` at a non-hardened `child` succeeds
/// (the key decodes to a point and the point addition succeeds).
pub uninterp spec fn xpub_derivable_of(xpub: Seq<u8>, child: u32) -> bool;

/// Relies on ed25519-bip32's `XPub::derive` with the V2 scheme: the child
/// public key at `child`; an error for a hardened `child` (>= 0x8000_0000),
/// or when the point addition fails.
#[verifier::external_body]
fn derive_xpub(xpub: &[u8; 64], child: u32) -> (r: Option<[u8; 64]>)
    ensures
        child >= HARDENED ==> r is None,
        child < HARDENED ==> (r is Some <==> xpub_derivable_of(xpub@, child)),
        r matches Some(k) ==> k@ == derived_xpub_of(xpub@, child),
{
    match ed25519_bip32::XPub::from_bytes(*xpub).derive(ed25519_bip32::DerivationScheme::V2, child) {
        Ok(k) => Some(k.into()),
        Err(_) => None,
    }
}

/// Relies on `rand::random`: a byte from the thread-local generator.
#[verifier::external_body]
fn random_byte() -> u8 {
    rand::random::<u8>()
}

/// The HMAC key under which a seed becomes the master key: "ed25519 seed".
pub open spec fn master_salt() -> Seq<u8> {
    seq![101u8, 100, 50, 53, 53, 49, 57, 32, 115, 101, 101, 100]
}

/// The master extended key of a seed: HMAC-SHA512 of the seed, split into
/// the secret (first half) and the chain code (second half).
pub open spec fn master_xprv(seed: Seq<u8>) -> Seq<u8> {
    let i = hmac_sha512_of(master_salt(), seed);
    xprv_from_secret_of(i.subrange(0, 32), i.subrange(32, 64))
}

/// A private key that the curve arithmetic handles: byte 31 of its scalar below 0x80.
pub open spec fn usable_key(xprv: Seq<u8>) -> bool {
    xprv[31] < 0x80
}

/// The child number of `index`, hardened or not.
pub open spec fn child_number(index: u32, hardened: bool) -> u32 {
    if hardened { (index + HARDENED) as u32 } else { index }
}

/// The fingerprint of a key: the first four bytes of the hash of its public key.
pub open spec fn fingerprint_of(xprv: Seq<u8>) -> Seq<u8> {
    blake2b_256_of(xpub_of(xprv)).subrange(0, 4)
}

pub open spec fn chain_number(t: AddrType) -> u32 {
    match t {
        AddrType::External => 0,
        AddrType::Internal => 1,
    }
}

/// The key at m / 44' below a master key.
pub open spec fn purpose_xprv(master: Seq<u8>) -> Seq<u8> {
    derived_xprv_of(master, child_number(BIP44_PURPOSE, true))
}

/// The key at m / 44' / 1815' below a master key.
pub open spec fn coin_xprv(master: Seq<u8>) -> Seq<u8> {
    derived_xprv_of(purpose_xprv(master), child_number(BIP44_COIN_TYPE, true))
}

/// The key at m / 44' / 1815' / account' below a master key.
pub open spec fn account_xprv(master: Seq<u8>, account: u32) -> Seq<u8> {
    derived_xprv_of(coin_xprv(master), child_number(account, true))
}

/// The key at m / 44' / 1815' / account' / chain below a master key.
pub open spec fn chain_xprv(master: Seq<u8>, account: u32, t: AddrType) -> Seq<u8> {
    derived_xprv_of(account_xprv(master, account), chain_number(t))
}

/// Every key from the master down to the account key is usable.
pub open spec fn account_path_usable(master: Seq<u8>) -> bool {
    &&& usable_key(master)
    &&& usable_key(purpose_xprv(master))
    &&& usable_key(coin_xprv(master))
}

/// Every key from the master down to the chain key is usable.
pub open spec fn chain_path_usable(master: Seq<u8>, account: u32, t: AddrType) -> bool {
    &&& account_path_usable(master)
    &&& usable_key(account_xprv(master, account))
    &&& usable_key(chain_xprv(master, account, t))
}

/// The key at m / 44' / 1815' / account' / chain / index below a master key.
pub open spec fn address_xprv(master: Seq<u8>, account: u32, t: AddrType, index: u32) -> Seq<u8> {
    derived_xprv_of(chain_xprv(master, account, t), index)
}

/// The raw address at a path: the extended public key of the key there.
pub open spec fn address_bytes(master: Seq<u8>, account: u32, t: AddrType, index: u32) -> Seq<u8> {
    xpub_of(address_xprv(master, account, t, index))
}

/// The root of trust of a wallet.
pub struct Seed {
    pub bytes: [u8; 32],
}

impl Seed {
    pub fn from_bytes(bytes: [u8; 32]) -> (r: Seed)
        ensures
            r.bytes == bytes,
    {
        Seed { bytes }
    }

    /// A seed from a slice, which must hold exactly `SEED_SIZE` bytes.
    pub fn from_slice(bytes: &[u8]) -> (r: Result<Seed, WalletError>)
        ensures
            r is Ok <==> bytes@.len() == SEED_SIZE,
            r matches Ok(s) ==> s.bytes@ == bytes@,
            r matches Err(e) ==> e == WalletError::InvalidSeedLength,
    {
        if bytes.len() != SEED_SIZE {
            return Err(WalletError::InvalidSeedLength);
        }
        let mut out = [0u8; 32];
        let mut i: usize = 0;
        while i < SEED_SIZE
            invariant
                bytes@.len() == 32,
                i <= 32,
                forall|j: int| 0 <= j < i ==> out@[j] == bytes@[j],
            decreases 32 - i,
        {
            out[i] = bytes[i];
            i = i + 1;
        }
        proof {
            assert(out@ =~= bytes@);
        }
        Ok(Seed { bytes: out })
    }
}

/// A node of the key tree.
#[derive(Clone, Copy)]
pub struct ExtendedKey {
    /// Extended secret key (64 bytes) followed by the chain code (32 bytes).
    pub xprv: [u8; 96],
    /// Distance from the master key.
    pub depth: u8,
    /// Child number under the parent; 0 for the master key.
    pub child_number: u32,
    /// Fingerprint of the parent; zeros for the master key.
    pub parent_fingerprint: [u8; 4],
}

impl ExtendedKey {
    /// The extended public key of this key.
    pub fn public_key(&self) -> (r: [u8; 64])
        requires
            usable_key(self.xprv@),
        ensures
            r@ == xpub_of(self.xprv@),
    {
        xpub(&self.xprv)
    }

    /// The fingerprint of this key.
    pub fn fingerprint(&self) -> (r: [u8; 4])
        requires
            usable_key(self.xprv@),
        ensures
            r@ == fingerprint_of(self.xprv@),
    {
        let pk = self.public_key();
        let h = hash_of(pk.as_slice());
        let r = [h[0], h[1], h[2], h[3]];
        proof {
            assert(r@ =~= blake2b_256_of(pk@).subrange(0, 4));
        }
        r
    }

    /// The child at `index`, hardened or not; `index` must lie below the hardened range.
    pub fn derive_child(&self, index: u32, hardened: bool) -> (r: Result<ExtendedKey, WalletError>)
        requires
            self.depth < 255,
        ensures
            r is Ok <==> index < HARDENED && usable_key(self.xprv@),
            index >= HARDENED ==> r == Err::<ExtendedKey, WalletError>(WalletError::IndexOutOfRange),
            index < HARDENED && !usable_key(self.xprv@)
                ==> r == Err::<ExtendedKey, WalletError>(WalletError::InvalidPrivateKey),
            r matches Ok(k) ==> {
                &&& k.xprv@ == derived_xprv_of(self.xprv@, child_number(index, hardened))
                &&& k.depth == self.depth + 1
                &&& k.child_number == child_number(index, hardened)
                &&& k.parent_fingerprint@ == fingerprint_of(self.xprv@)
            },
    {
        if index >= HARDENED {
            return Err(WalletError::IndexOutOfRange);
        }
        if self.xprv[31] >= 0x80 {
            return Err(WalletError::InvalidPrivateKey);
        }
        let child = if hardened { index + HARDENED } else { index };
        Ok(ExtendedKey {
            xprv: derive_xprv(&self.xprv, child),
            depth: self.depth + 1,
            child_number: child,
            parent_fingerprint: self.fingerprint(),
        })
    }
}

/// The non-hardened child at `index` of an extended public key, derived
/// from public material alone.
pub fn derive_public_child(xpub: &[u8; 64], index: u32) -> (r: Result<[u8; 64], WalletError>)
    ensures
        index >= HARDENED ==> r == Err::<[u8; 64], WalletError>(WalletError::IndexOutOfRange),
        index < HARDENED ==> (r is Ok <==> xpub_derivable_of(xpub@, index)),
        index < HARDENED ==> (r matches Err(e) ==> e == WalletError::InvalidPublicKey),
        r matches Ok(k) ==> k@ == derived_xpub_of(xpub@, index),
{
    if index >= HARDENED {
        return Err(WalletError::IndexOutOfRange);
    }
    match derive_xpub(xpub, index) {
        Some(k) => Ok(k),
        None => Err(WalletError::InvalidPublicKey),
    }
}

/// An address: where it lies in the tree, and its raw bytes (the extended
/// public key of the key there).
#[derive(Clone, Copy)]
pub struct Address {
    pub account: u32,
    pub addr_type: AddrType,
    pub index: u32,
    pub public_key: [u8; 64],
}

impl Address {
    /// The raw bytes of the address.
    pub fn to_bytes(&self) -> (r: Vec<u8>)
        ensures
            r@ == self.public_key@,
    {
        vstd::slice::slice_to_vec(self.public_key.as_slice())
    }
}

/// The outcome of generating addresses for `indices` in `account` on chain `t`.
pub open spec fn addresses_outcome(
    master: Seq<u8>,
    account: u32,
    t: AddrType,
    indices: Seq<u32>,
    r: Result<Vec<Address>, WalletError>,
) -> bool {
    &&& r is Ok <==> {
        &&& account < HARDENED
        &&& forall|i: int| 0 <= i < indices.len() ==> #[trigger] indices[i] < HARDENED
        &&& chain_path_usable(master, account, t)
        &&& forall|i: int| 0 <= i < indices.len() ==> usable_key(#[trigger] address_xprv(master, account, t, indices[i]))
    }
    &&& (account >= HARDENED || exists|i: int| 0 <= i < indices.len() && #[trigger] indices[i] >= HARDENED)
        ==> r == Err::<Vec<Address>, WalletError>(WalletError::IndexOutOfRange)
    &&& r matches Err(e) ==> e == WalletError::IndexOutOfRange || e == WalletError::InvalidPrivateKey
    &&& r matches Ok(v) ==> {
        &&& v@.len() == indices.len()
        &&& forall|i: int| 0 <= i < v@.len() ==> {
            &&& (#[trigger] v@[i]).account == account
            &&& v@[i].addr_type == t
            &&& v@[i].index == indices[i]
            &&& v@[i].public_key@ == address_bytes(master, account, t, indices[i])
        }
    }
}

/// A wallet: the master key of its seed.
pub struct Wallet {
    pub master: ExtendedKey,
}

impl Wallet {
    /// The wallet of `seed`.
    pub fn new_from_seed(seed: &Seed) -> (r: Wallet)
        ensures
            r.master.xprv@ == master_xprv(seed.bytes@),
            r.master.depth == 0,
            r.master.child_number == 0,
            r.master.parent_fingerprint@ == seq![0u8, 0, 0, 0],
            r.master.xprv@.subrange(64, 96) == hmac_sha512_of(master_salt(), seed.bytes@).subrange(32, 64),
            usable_key(r.master.xprv@),
    {
        let salt: [u8; 12] = [101, 100, 50, 53, 53, 49, 57, 32, 115, 101, 101, 100];
        let i = hmac_sha512(salt.as_slice(), seed.bytes.as_slice());
        let mut secret = [0u8; 32];
        let mut chain_code = [0u8; 32];
        let mut j: usize = 0;
        while j < 32
            invariant
                j <= 32,
                i@.len() == 64,
                forall|m: int| 0 <= m < j ==> secret@[m] == i@[m],
                forall|m: int| 0 <= m < j ==> chain_code@[m] == i@[m + 32],
            decreases 32 - j,
        {
            secret[j] = i[j];
            chain_code[j] = i[j + 32];
            j = j + 1;
        }
        proof {
            assert(salt@ =~= master_salt());
            assert(secret@ =~= i@.subrange(0, 32));
            assert(chain_code@ =~= i@.subrange(32, 64));
        }
        let master = ExtendedKey {
            xprv: xprv_from_secret(&secret, &chain_code),
            depth: 0,
            child_number: 0,
            parent_fingerprint: [0u8; 4],
        };
        proof {
            assert(master.parent_fingerprint@ =~= seq![0u8, 0, 0, 0]);
        }
        Wallet { master }
    }

    /// A wallet from a fresh random seed.
    pub fn generate() -> (r: Wallet)
        ensures
            exists|seed: Seq<u8>| seed.len() == SEED_SIZE && r.master.xprv@ == #[trigger] master_xprv(seed),
            r.master.depth == 0,
            r.master.child_number == 0,
            r.master.parent_fingerprint@ == seq![0u8, 0, 0, 0],
            usable_key(r.master.xprv@),
    {
        let mut bytes = [0u8; 32];
        let mut i: usize = 0;
        while i < SEED_SIZE
            invariant
                i <= 32,
            decreases 32 - i,
        {
            bytes[i] = random_byte();
            i = i + 1;
        }
        let seed = Seed::from_bytes(bytes);
        let w = Wallet::new_from_seed(&seed);
        proof {
            assert(seed.bytes@.len() == SEED_SIZE);
        }
        w
    }

    /// The key at m / 44' / 1815' / account'.
    pub fn account_key(&self, account: u32) -> (r: Result<ExtendedKey, WalletError>)
        requires
            self.master.depth == 0,
        ensures
            r is Ok <==> account < HARDENED && account_path_usable(self.master.xprv@),
            account >= HARDENED ==> r == Err::<ExtendedKey, WalletError>(WalletError::IndexOutOfRange),
            account < HARDENED && !account_path_usable(self.master.xprv@)
                ==> r == Err::<ExtendedKey, WalletError>(WalletError::InvalidPrivateKey),
            r matches Ok(k) ==> k.xprv@ == account_xprv(self.master.xprv@, account) && k.depth == 3,
    {
        if account >= HARDENED {
            return Err(WalletError::IndexOutOfRange);
        }
        let purpose = match self.master.derive_child(BIP44_PURPOSE, true) {
            Ok(k) => k,
            Err(e) => return Err(e),
        };
        let coin = match purpose.derive_child(BIP44_COIN_TYPE, true) {
            Ok(k) => k,
            Err(e) => return Err(e),
        };
        coin.derive_child(account, true)
    }

    /// The addresses at `indices`, in that order, on chain `addr_type` of
    /// `account`. Every index is checked before any key is derived.
    pub fn gen_addresses(&self, account: u32, addr_type: AddrType, indices: &Vec<u32>) -> (r: Result<Vec<Address>, WalletError>)
        requires
            self.master.depth == 0,
        ensures
            addresses_outcome(self.master.xprv@, account, addr_type, indices@, r),
    {
        let mut n: usize = 0;
        while n < indices.len()
            invariant
                n <= indices@.len(),
                forall|i: int| 0 <= i < n ==> #[trigger] indices@[i] < HARDENED,
            decreases indices@.len() - n,
        {
            if indices[n] >= HARDENED {
                return Err(WalletError::IndexOutOfRange);
            }
            n = n + 1;
        }
        let account_key = match self.account_key(account) {
            Ok(k) => k,
            Err(e) => return Err(e),
        };
        let chain = match addr_type {
            AddrType::External => 0u32,
            AddrType::Internal => 1u32,
        };
        let chain_key = match account_key.derive_child(chain, false) {
            Ok(k) => k,
            Err(e) => return Err(e),
        };
        if chain_key.xprv[31] >= 0x80 {
            return Err(WalletError::InvalidPrivateKey);
        }
        let mut out: Vec<Address> = Vec::new();
        let mut i: usize = 0;
        while i < indices.len()
            invariant
                i <= indices@.len(),
                forall|m: int| 0 <= m < indices@.len() ==> #[trigger] indices@[m] < HARDENED,
                chain_key.depth == 4,
                chain_key.xprv@ == chain_xprv(self.master.xprv@, account, addr_type),
                account < HARDENED,
                chain_path_usable(self.master.xprv@, account, addr_type),
                forall|m: int| 0 <= m < i ==> usable_key(#[trigger] address_xprv(self.master.xprv@, account, addr_type, indices@[m])),
                out@.len() == i,
                forall|m: int| 0 <= m < i ==> {
                    &&& (#[trigger] out@[m]).account == account
                    &&& out@[m].addr_type == addr_type
                    &&& out@[m].index == indices@[m]
                    &&& out@[m].public_key@ == address_bytes(self.master.xprv@, account, addr_type, indices@[m])
                },
            decreases indices@.len() - i,
        {
            let key = match chain_key.derive_child(indices[i], false) {
                Ok(k) => k,
                Err(e) => return Err(e),
            };
            if key.xprv[31] >= 0x80 {
                proof {
                    assert(!usable_key(address_xprv(self.master.xprv@, account, addr_type, indices@[i as int])));
                }
                return Err(WalletError::InvalidPrivateKey);
            }
            out.push(Address { account, addr_type, index: indices[i], public_key: key.public_key() });
            i = i + 1;
        }
        Ok(out)
    }
}

/// The indices asked for, or index 0 when none were given.
pub open spec fn requested_indices(indices: Option<Vec<u32>>) -> Seq<u32> {
    match indices {
        Some(v) => v@,
        None => seq![0u32],
    }
}

/// Addresses for a wallet that may not exist yet and an account that may not
/// have been resolved; without indices, index 0 is taken.
pub fn addresses_for(
    wallet: &Option<Wallet>,
    account: Option<u32>,
    addr_type: AddrType,
    indices: Option<Vec<u32>>,
) -> (r: Result<Vec<Address>, WalletError>)
    requires
        wallet matches Some(w) ==> w.master.depth == 0,
    ensures
        wallet is None ==> r == Err::<Vec<Address>, WalletError>(WalletError::WalletNotInitialized),
        wallet is Some && account is None ==> r == Err::<Vec<Address>, WalletError>(WalletError::AccountNotFound),
        wallet matches Some(w) ==> account matches Some(a) ==>
            addresses_outcome(w.master.xprv@, a, addr_type, requested_indices(indices), r),
{
    let w = match wallet {
        Some(w) => w,
        None => return Err(WalletError::WalletNotInitialized),
    };
    let a = match account {
        Some(a) => a,
        None => return Err(WalletError::AccountNotFound),
    };
    let list = match indices {
        Some(v) => v,
        None => vec![0u32],
    };
    proof {
        assert(list@ =~= requested_indices(indices));
    }
    w.gen_addresses(a, addr_type, &list)
}

/// Two wallets made from one seed give, for one account, chain and list of
/// indices, the same outcome: the same addresses, byte for byte, in the
/// order of the indices; an index that repeats gives the same address again.
pub proof fn lemma_hd_determinism(
    seed: Seq<u8>,
    w1: Wallet,
    w2: Wallet,
    account: u32,
    t: AddrType,
    indices: Seq<u32>,
    r1: Result<Vec<Address>, WalletError>,
    r2: Result<Vec<Address>, WalletError>,
)
    requires
        w1.master.xprv@ == master_xprv(seed),
        w2.master.xprv@ == master_xprv(seed),
        addresses_outcome(w1.master.xprv@, account, t, indices, r1),
        addresses_outcome(w2.master.xprv@, account, t, indices, r2),
    ensures
        r1 is Ok <==> r2 is Ok,
        r1 matches Ok(v1) ==> r2 matches Ok(v2) ==> {
            &&& v1@.len() == v2@.len()
            &&& forall|i: int| 0 <= i < v1@.len() ==> {
                &&& (#[trigger] v1@[i]).public_key@ == v2@[i].public_key@
                &&& v1@[i].index == v2@[i].index
                &&& v1@[i].account == v2@[i].account
                &&& v1@[i].addr_type == v2@[i].addr_type
            }
        },
        r1 matches Ok(v1) ==> forall|i: int, j: int| 0 <= i < v1@.len() && 0 <= j < v1@.len()
            && indices[i] == indices[j] ==> (#[trigger] v1@[i]).public_key@ == (#[trigger] v1@[j]).public_key@,
{
    if r1 is Ok && r2 is Ok {
        let v1 = r1->Ok_0;
        let v2 = r2->Ok_0;
        assert forall|i: int| 0 <= i < v1@.len() implies (#[trigger] v1@[i]).public_key@ == v2@[i].public_key@ by {
            assert(v2@[i].public_key@ == address_bytes(master_xprv(seed), account, t, indices[i]));
        }
    }
}

} // verus!
