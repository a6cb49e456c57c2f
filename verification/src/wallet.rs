//! Wallets: keys by address, unspent outputs by address, address derivation,
//! transaction building, message signing, backups and deterministic key derivation.

use vstd::prelude::*;

use crate::codec::{
    base58_encode, base58_text, bech32_encode, bech32_error_text, bech32_text, hex_decodable,
    hex_decode, hex_decoding, hex_encode, hex_error_text, hex_lowercase, lemma_hex_decoding_reencodes,
    lemma_hex_round_trip,
};
use crate::collections::{distinct, lemma_index_of, text_set, StrMap, StrSet};
use crate::order::{ascending_order, ascending_positions, as_ints, is_permutation_of, values_at};
use crate::crypto::{
    check_compact_signature, check_secret_key, compact_signature_parses, derive_public_key, ecdsa_sign,
    ecdsa_signature, ecdsa_verifies, ecdsa_verify, generate_keypair, public_key_of, public_key_parses,
    invalid_secret_key_text, invalid_signature_text, ripemd160, ripemd160_digest, secret_key_valid, sha256,
    sha256_digest,
};
use crate::text::{concat, decimal, hex_bytes, push_decimal, starts_with};
use crate::types::{
    KaspaError, NetworkType, Outpoint, ScriptPublicKey, Transaction, TransactionInput, TransactionOutput,
    UtxoEntry,
};

verus! {

/// The subnetwork id of ordinary transactions: forty zeros.
pub const MAIN_NET_ID: &'static str = "0000000000000000000000000000000000000000";

/// The version byte that starts an address payload on a network.
pub open spec fn version_byte(network: NetworkType) -> u8 {
    match network {
        NetworkType::Mainnet => 0x00,
        _ => 0x6f,
    }
}

/// The Base58Check checksum of `data`: the first four bytes of its double SHA-256.
pub open spec fn checksum_of(data: Seq<u8>) -> Seq<u8> {
    sha256_digest(sha256_digest(data)).take(4)
}

/// The payload of the address of a public key: version byte, RIPEMD-160 of the
/// SHA-256 of the key, then the checksum of those bytes.
pub open spec fn address_payload(network: NetworkType, public_key: Seq<u8>) -> Seq<u8> {
    let body = seq![version_byte(network)] + ripemd160_digest(sha256_digest(public_key));
    body + checksum_of(body)
}

/// The Base58Check address of a public key on a network.
pub open spec fn kaspa_address(network: NetworkType, public_key: Seq<u8>) -> Seq<char> {
    base58_text(address_payload(network, public_key))
}

/// The human-readable part of Bech32 addresses on a network.
pub open spec fn bech32_prefix(network: NetworkType) -> Seq<char> {
    match network {
        NetworkType::Mainnet => "kaspa"@,
        NetworkType::Testnet => "kaspatest"@,
        NetworkType::Devnet => "kaspadev"@,
        NetworkType::Simnet => "kaspasim"@,
    }
}

/// A secp256k1 key pair: the 32-byte secret key and the 33-byte compressed public key.
pub struct KaspaKeypair {
    pub secret_key: Vec<u8>,
    pub public_key: Vec<u8>,
}

/// The bytes of a key pair: secret key, then public key.
pub open spec fn keypair_bytes(kp: KaspaKeypair) -> (Seq<u8>, Seq<u8>) {
    (kp.secret_key@, kp.public_key@)
}

/// Whether the bytes are a valid secret key and the public key derived from it.
pub open spec fn keypair_valid(kp: (Seq<u8>, Seq<u8>)) -> bool {
    &&& kp.0.len() == 32
    &&& secret_key_valid(kp.0)
    &&& kp.1 == public_key_of(kp.0)
    &&& public_key_parses(kp.1)
}

/// The total amount of a list of unspent outputs.
pub open spec fn utxo_total(utxos: Seq<UtxoEntry>) -> nat
    decreases utxos.len(),
{
    if utxos.len() == 0 {
        0
    } else {
        utxo_total(utxos.drop_last()) + utxos.last().amount as nat
    }
}

/// The amounts of a list of unspent outputs.
pub open spec fn amounts_of(utxos: Seq<UtxoEntry>) -> Seq<u64> {
    utxos.map_values(|u: UtxoEntry| u.amount)
}

/// The sum of a sequence of amounts.
pub open spec fn amount_sum(s: Seq<u64>) -> nat
    decreases s.len(),
{
    if s.len() == 0 {
        0
    } else {
        amount_sum(s.drop_last()) + s.last() as nat
    }
}

/// Whether the first `k` amounts pay for `amount` plus a fee of `fee` per input.
pub open spec fn covers(ordered: Seq<u64>, k: nat, amount: u64, fee: u64) -> bool {
    amount_sum(ordered.take(k as int)) >= amount + k * fee
}

/// The number of amounts taken, from position `k` on: up to the first prefix that
/// covers the amount and its fees, or all of them.
pub open spec fn select_count_from(ordered: Seq<u64>, amount: u64, fee: u64, k: nat) -> nat
    decreases ordered.len() - k,
{
    if k >= ordered.len() {
        ordered.len()
    } else if covers(ordered, k + 1, amount, fee) {
        k + 1
    } else {
        select_count_from(ordered, amount, fee, k + 1)
    }
}

/// The positions of the unspent outputs that are spent: smallest amounts first,
/// until they pay for `amount` plus `fee` per input spent.
pub open spec fn selected_positions(amounts: Seq<u64>, amount: u64, fee: u64) -> Seq<int> {
    let order = ascending_order(amounts, amounts.len());
    order.take(select_count_from(values_at(amounts, order), amount, fee, 0) as int)
}

/// The total of the selected unspent outputs.
pub open spec fn selected_total(amounts: Seq<u64>, amount: u64, fee: u64) -> nat {
    amount_sum(values_at(amounts, selected_positions(amounts, amount, fee)))
}

/// The digest that is signed for a message: the SHA-256 of its UTF-8 bytes.
pub open spec fn message_digest(message: Seq<char>) -> Seq<u8> {
    sha256_digest(vstd::utf8::encode_utf8(message))
}

/// The locking script paid to an address: `76a914`, the hexadecimal SHA-256 of the
/// address's UTF-8 bytes, then `88ac`.
pub open spec fn script_for(address: Seq<char>) -> Seq<char> {
    "76a914"@ + hex_bytes(sha256_digest(vstd::utf8::encode_utf8(address))) + "88ac"@
}

/// Whether an output pays `value` to `address`.
pub open spec fn pays(out: TransactionOutput, value: u64, address: Seq<char>) -> bool {
    &&& out.value == value
    &&& out.script_public_key.version == 0
    &&& out.script_public_key.script_public_key@ == script_for(address)
    &&& out.verbose_data is None
}

/// Whether an input is the `p`-th placeholder input of a built transaction.
pub open spec fn placeholder_input(inp: TransactionInput, p: int) -> bool {
    &&& inp.previous_outpoint.transaction_id@ == "tx_"@ + decimal(p as nat)
    &&& inp.previous_outpoint.index == 0
    &&& inp.signature_script@ == Seq::<char>::empty()
    &&& inp.sequence == 0xFFFFFFFF
    &&& inp.sig_op_count == 1
}

/// Whether `tx` is the transaction built to pay `amount` to `to` from `count`
/// inputs, with `change` going back to `from` when it is not zero.
pub open spec fn built_transaction(
    tx: Transaction,
    from: Seq<char>,
    to: Seq<char>,
    amount: u64,
    count: nat,
    change: nat,
) -> bool {
    &&& tx.version == 0
    &&& tx.inputs@.len() == count
    &&& forall|p: int| 0 <= p < count ==> placeholder_input(#[trigger] tx.inputs@[p], p)
    &&& tx.outputs@.len() == if change > 0 { 2nat } else { 1nat }
    &&& pays(tx.outputs@[0], amount, to)
    &&& change > 0 ==> pays(tx.outputs@[1], change as u64, from)
    &&& tx.lock_time == 0
    &&& tx.subnetwork_id@ == MAIN_NET_ID@
    &&& tx.gas == 0
    &&& tx.payload@ == Seq::<char>::empty()
    &&& tx.verbose_data is None
}

proof fn lemma_amount_sum_prefix(s: Seq<u64>, i: int)
    requires
        0 <= i <= s.len(),
    ensures
        amount_sum(s.take(i)) <= amount_sum(s),
    decreases s.len() - i,
{
    if i < s.len() {
        lemma_amount_sum_prefix(s, i + 1);
        assert(s.take(i + 1).drop_last() =~= s.take(i));
    } else {
        assert(s.take(i) =~= s);
    }
}

/// From a position before the end, at least one more amount is taken, and never
/// more than there are.
proof fn lemma_select_count_range(ordered: Seq<u64>, amount: u64, fee: u64, k: nat)
    ensures
        k <= ordered.len() ==> select_count_from(ordered, amount, fee, k) <= ordered.len(),
        k < ordered.len() ==> k + 1 <= select_count_from(ordered, amount, fee, k),
    decreases ordered.len() - k,
{
    if k < ordered.len() && !covers(ordered, k + 1, amount, fee) {
        lemma_select_count_range(ordered, amount, fee, k + 1);
        if k + 1 >= ordered.len() {
            assert(select_count_from(ordered, amount, fee, k + 1) == ordered.len());
        }
    }
}

/// Taking amounts is decided by the first covering prefix.
proof fn lemma_select_count_skip(ordered: Seq<u64>, amount: u64, fee: u64, k: nat)
    requires
        k <= ordered.len(),
        forall|j: nat| 1 <= j <= k ==> !#[trigger] covers(ordered, j, amount, fee),
    ensures
        select_count_from(ordered, amount, fee, 0) == select_count_from(ordered, amount, fee, k),
    decreases k,
{
    if k > 0 {
        lemma_select_count_skip(ordered, amount, fee, (k - 1) as nat);
        assert(!covers(ordered, k, amount, fee));
    }
}

/// From position `k`, the amounts taken stop at the first prefix past `k` that pays
/// for the amount and a fee per input, or at the end.
proof fn lemma_select_count_first_cover(ordered: Seq<u64>, amount: u64, fee: u64, k: nat)
    requires
        k < ordered.len(),
    ensures
        ({
            let c = select_count_from(ordered, amount, fee, k);
            &&& k < c <= ordered.len()
            &&& forall|j: int| k < j < c ==> amount_sum(#[trigger] ordered.take(j)) < amount + j * fee
            &&& c < ordered.len() ==> amount_sum(ordered.take(c as int)) >= amount + c * fee
        }),
    decreases ordered.len() - k,
{
    let c = select_count_from(ordered, amount, fee, k);
    if covers(ordered, k + 1, amount, fee) {
        assert(c == k + 1);
    } else {
        assert(amount_sum(ordered.take((k + 1) as int)) < amount + (k + 1) * fee);
        if k + 1 < ordered.len() {
            lemma_select_count_first_cover(ordered, amount, fee, k + 1);
        } else {
            assert(select_count_from(ordered, amount, fee, k + 1) == ordered.len());
        }
        assert(c == select_count_from(ordered, amount, fee, k + 1));
    }
}

/// The outputs spent are the shortest run of the smallest amounts (in stable
/// ascending order) that pays for the amount plus the fee of every input in the
/// run, or all of them when no run does; at least one is spent when there is one.
/// So the selection falls short of the amount and its fees only when even all the
/// outputs do.
pub proof fn lemma_selection_is_shortest_covering_prefix(amounts: Seq<u64>, amount: u64, fee: u64)
    ensures
        ({
            let order = ascending_order(amounts, amounts.len());
            let sorted = values_at(amounts, order);
            let k = selected_positions(amounts, amount, fee).len();
            &&& selected_positions(amounts, amount, fee) == order.take(k as int)
            &&& k <= amounts.len()
            &&& amounts.len() > 0 ==> k >= 1
            &&& selected_total(amounts, amount, fee) == amount_sum(sorted.take(k as int))
            &&& forall|j: int| 1 <= j < k ==> amount_sum(#[trigger] sorted.take(j)) < amount + j * fee
            &&& k < amounts.len() ==> amount_sum(sorted.take(k as int)) >= amount + k * fee
            &&& selected_total(amounts, amount, fee) < amount + k * fee ==> k == amounts.len()
        }),
{
    let order = ascending_order(amounts, amounts.len());
    crate::order::lemma_ascending_order_permutation(amounts, amounts.len());
    let sorted = values_at(amounts, order);
    let c = select_count_from(sorted, amount, fee, 0);
    if amounts.len() > 0 {
        lemma_select_count_first_cover(sorted, amount, fee, 0);
    }
    assert(c <= amounts.len());
    assert(order.take(c as int).len() == c);
    assert(values_at(amounts, order.take(c as int)) =~= sorted.take(c as int));
}

/// The backup of one key: its address and both keys in hexadecimal.
pub struct KeyBackup {
    pub address: String,
    pub private_key: String,
    pub public_key: String,
}

/// The backup of a wallet: its network and its keys.
pub struct WalletBackup {
    pub network: NetworkType,
    pub keys: Vec<KeyBackup>,
}

/// Whether a key backup holds a secret key that can be imported.
pub open spec fn importable(kb: KeyBackup) -> bool {
    &&& hex_decodable(kb.private_key@)
    &&& hex_decoding(kb.private_key@).len() == 32
    &&& secret_key_valid(hex_decoding(kb.private_key@))
}

/// The start of the message of the error that importing a key backup gives.
pub open spec fn import_error_prefix(kb: KeyBackup) -> Seq<char> {
    if !hex_decodable(kb.private_key@) {
        "Invalid hex: "@
    } else {
        "Invalid private key: "@
    }
}

/// The keys, by address, that importing the secret keys of `backups` in order
/// gives on a network; `None` when one of them cannot be imported.
pub open spec fn restored_keys(network: NetworkType, backups: Seq<KeyBackup>) -> Option<
    Map<Seq<char>, (Seq<u8>, Seq<u8>)>,
>
    decreases backups.len(),
{
    if backups.len() == 0 {
        Some(Map::empty())
    } else {
        match restored_keys(network, backups.drop_last()) {
            None => None,
            Some(m) => {
                let kb = backups.last();
                if importable(kb) {
                    let secret = hex_decoding(kb.private_key@);
                    Some(m.insert(kaspa_address(network, public_key_of(secret)), (secret, public_key_of(secret))))
                } else {
                    None
                }
            },
        }
    }
}

/// The 64-byte seed of a phrase: its first 64 UTF-8 bytes, padded with zeros.
pub open spec fn phrase_seed(phrase: Seq<u8>) -> Seq<u8> {
    Seq::new(64, |i: int| if i < phrase.len() { phrase[i] } else { 0u8 })
}

/// The big-endian bytes of a 32-bit index.
pub open spec fn be_bytes(i: u32) -> Seq<u8> {
    seq![(i / 0x100_0000) as u8, ((i / 0x1_0000) % 256) as u8, ((i / 256) % 256) as u8, (i % 256) as u8]
}

/// The candidate secret key of an index: the SHA-256 of the seed then the index.
pub open spec fn derived_secret(seed: Seq<u8>, index: u32) -> Seq<u8> {
    sha256_digest(seed + be_bytes(index))
}

/// The address of the key of `index` derived from `seed` on `network`; `None` when
/// the derived bytes are not a valid secret key.
pub open spec fn hd_address(seed: Seq<u8>, network: NetworkType, index: u32) -> Option<Seq<char>> {
    let secret = derived_secret(seed, index);
    if secret_key_valid(secret) {
        Some(kaspa_address(network, public_key_of(secret)))
    } else {
        None
    }
}

/// Two phrases give the same seed when they are equal, or when both have at least
/// 64 bytes and agree on the first 64: only those bytes are kept. HD wallets made
/// from them on one network therefore derive the same address at every index.
pub proof fn lemma_phrase_seed_prefix(p1: Seq<u8>, p2: Seq<u8>)
    requires
        p1 == p2 || (p1.len() >= 64 && p2.len() >= 64 && p1.take(64) == p2.take(64)),
    ensures
        phrase_seed(p1) == phrase_seed(p2),
        forall|network: NetworkType, index: u32| #[trigger] hd_address(phrase_seed(p1), network, index)
            == hd_address(phrase_seed(p2), network, index),
{
    if p1 != p2 {
        assert forall|i: int| 0 <= i < 64 implies #[trigger] phrase_seed(p1)[i] == phrase_seed(p2)[i] by {
            assert(p1.take(64)[i] == p2.take(64)[i]);
        }
        assert(phrase_seed(p1) =~= phrase_seed(p2));
    }
}

/// The network a name stands for in a backup.
pub open spec fn network_of_name(name: Seq<char>) -> Option<NetworkType> {
    if name == "mainnet"@ {
        Some(NetworkType::Mainnet)
    } else if name == "testnet"@ {
        Some(NetworkType::Testnet)
    } else if name == "devnet"@ {
        Some(NetworkType::Devnet)
    } else if name == "simnet"@ {
        Some(NetworkType::Simnet)
    } else {
        None
    }
}

/// The network a name stands for in a backup: `mainnet`, `testnet`, `devnet` or `simnet`.
pub fn network_type_from_name(name: &str) -> (r: Option<NetworkType>)
    ensures
        r == network_of_name(name@),
{
    if crate::text::text_eq(name, "mainnet") {
        Some(NetworkType::Mainnet)
    } else if crate::text::text_eq(name, "testnet") {
        Some(NetworkType::Testnet)
    } else if crate::text::text_eq(name, "devnet") {
        Some(NetworkType::Devnet)
    } else if crate::text::text_eq(name, "simnet") {
        Some(NetworkType::Simnet)
    } else {
        None
    }
}

/// Keys by address, unspent outputs by address, the wallet's own addresses, and its network.
pub struct Wallet {
    keys: StrMap<KaspaKeypair>,
    utxos: StrMap<Vec<UtxoEntry>>,
    addresses: StrSet,
    network: NetworkType,
}

impl Wallet {
    #[verifier::type_invariant]
    spec fn inv(self) -> bool {
        &&& self.addresses.view() == self.keys.view().dom()
        &&& forall|a: Seq<char>| #[trigger] self.keys.view().contains_key(a) ==> {
            &&& keypair_valid(keypair_bytes(self.keys.view()[a]))
            &&& a == kaspa_address(self.network, self.keys.view()[a].public_key@)
        }
    }

    /// The key pairs held, by address, as bytes.
    pub closed spec fn key_view(self) -> Map<Seq<char>, (Seq<u8>, Seq<u8>)> {
        self.keys.view().map_values(|kp: KaspaKeypair| keypair_bytes(kp))
    }

    /// The unspent outputs recorded, by address.
    pub closed spec fn utxo_view(self) -> Map<Seq<char>, Seq<UtxoEntry>> {
        self.utxos.view().map_values(|v: Vec<UtxoEntry>| v@)
    }

    /// The wallet's own addresses.
    pub closed spec fn address_view(self) -> Set<Seq<char>> {
        self.addresses.view()
    }

    /// The wallet's own addresses, in the order they were added.
    pub closed spec fn address_list(self) -> Seq<String> {
        self.addresses.items()
    }

    /// The network of the wallet.
    pub closed spec fn network_view(self) -> NetworkType {
        self.network
    }

    /// The balance recorded for an address: the total of its unspent outputs.
    pub open spec fn balance_of(self, address: Seq<char>) -> nat {
        if self.utxo_view().contains_key(address) {
            utxo_total(self.utxo_view()[address])
        } else {
            0
        }
    }

    /// An empty wallet on a network.
    pub fn new(network: NetworkType) -> (w: Self)
        ensures
            w.key_view() == Map::<Seq<char>, (Seq<u8>, Seq<u8>)>::empty(),
            w.utxo_view() == Map::<Seq<char>, Seq<UtxoEntry>>::empty(),
            w.address_view() == Set::<Seq<char>>::empty(),
            w.address_list().len() == 0,
            w.network_view() == network,
    {
        let w = Wallet { keys: StrMap::new(), utxos: StrMap::new(), addresses: StrSet::new(), network };
        assert(w.key_view() =~= Map::<Seq<char>, (Seq<u8>, Seq<u8>)>::empty());
        assert(w.utxo_view() =~= Map::<Seq<char>, Seq<UtxoEntry>>::empty());
        w
    }

    /// The Base58Check checksum of `data`.
    pub fn calculate_checksum(data: &[u8]) -> (c: [u8; 4])
        ensures
            c@ == checksum_of(data@),
    {
        let first = sha256(data);
        let second = sha256(first.as_slice());
        let c = [second[0], second[1], second[2], second[3]];
        assert(c@ =~= checksum_of(data@));
        c
    }

    /// The Base58Check address of a public key on the wallet's network.
    pub fn public_key_to_kaspa_address(&self, public_key: &[u8]) -> (a: String)
        ensures
            a@ == kaspa_address(self.network_view(), public_key@),
    {
        let sha = sha256(public_key);
        let hash160 = ripemd160(sha.as_slice());
        let version: u8 = match self.network {
            NetworkType::Mainnet => 0x00,
            NetworkType::Testnet => 0x6f,
            NetworkType::Devnet => 0x6f,
            NetworkType::Simnet => 0x6f,
        };
        let mut payload: Vec<u8> = Vec::with_capacity(25);
        payload.push(version);
        let mut i: usize = 0;
        while i < hash160.len()
            invariant
                i <= hash160@.len(),
                payload@ == seq![version] + hash160@.take(i as int),
            decreases hash160@.len() - i,
        {
            payload.push(hash160[i]);
            assert(hash160@.take(i + 1) =~= hash160@.take(i as int).push(hash160@[i as int]));
            i = i + 1;
        }
        assert(hash160@.take(hash160@.len() as int) =~= hash160@);
        let ghost body = payload@;
        let checksum = Self::calculate_checksum(payload.as_slice());
        let mut j: usize = 0;
        while j < 4
            invariant
                j <= 4,
                checksum@.len() == 4,
                payload@ == body + checksum@.take(j as int),
            decreases 4 - j,
        {
            payload.push(checksum[j]);
            assert(checksum@.take(j + 1) =~= checksum@.take(j as int).push(checksum@[j as int]));
            j = j + 1;
        }
        assert(checksum@.take(4) =~= checksum@);
        base58_encode(payload.as_slice())
    }

    /// The Bech32 address of a public key on the wallet's network; when the encoder
    /// fails, an error that carries its message.
    pub fn public_key_to_bech32_address(&self, public_key: &[u8]) -> (r: Result<String, KaspaError>)
        ensures
            r matches Ok(a) && a@ == bech32_text(
                bech32_prefix(self.network_view()),
                ripemd160_digest(sha256_digest(public_key@)),
            ),
    {
        let sha = sha256(public_key);
        let hash160 = ripemd160(sha.as_slice());
        let hrp: &str = match self.network {
            NetworkType::Mainnet => "kaspa",
            NetworkType::Testnet => "kaspatest",
            NetworkType::Devnet => "kaspadev",
            NetworkType::Simnet => "kaspasim",
        };
        proof {
            reveal_strlit("kaspa");
            reveal_strlit("kaspatest");
            reveal_strlit("kaspadev");
            reveal_strlit("kaspasim");
            assert(hrp@ == bech32_prefix(self.network));
            assert forall|i: int| 0 <= i < hrp@.len() implies 'a' <= #[trigger] hrp@[i] <= 'z' by {
                match self.network {
                    NetworkType::Mainnet => {},
                    NetworkType::Testnet => {},
                    NetworkType::Devnet => {},
                    NetworkType::Simnet => {},
                }
            }
            crate::codec::lemma_lowercase_hrp_valid(hrp@);
        }
        match bech32_encode(hrp, hash160.as_slice()) {
            Ok(s) => Ok(s),
            Err(e) => {
                let mut m = String::from_str("Bech32 encoding failed: ");
                let ghost prefix = m@;
                m.append(bech32_error_text(&e).as_str());
                proof {
                    reveal_strlit("Bech32 encoding failed: ");
                    assert(m@.take(24) =~= prefix);
                }
                Err(KaspaError::Custom(m))
            },
        }
    }

    /// Whether every view of the wallet is as it was.
    pub open spec fn same_state(self, other: Self) -> bool {
        &&& self.key_view() == other.key_view()
        &&& self.utxo_view() == other.utxo_view()
        &&& self.address_view() == other.address_view()
        &&& self.address_list() == other.address_list()
        &&& self.network_view() == other.network_view()
    }

    /// Records a key pair under its address.
    fn insert_keypair(&mut self, address: String, keypair: KaspaKeypair)
        requires
            keypair_valid(keypair_bytes(keypair)),
            address@ == kaspa_address(old(self).network_view(), keypair.public_key@),
        ensures
            final(self).key_view() == old(self).key_view().insert(address@, keypair_bytes(keypair)),
            final(self).address_view() == old(self).address_view().insert(address@),
            old(self).address_view().contains(address@) ==> final(self).address_list() == old(self).address_list(),
            !old(self).address_view().contains(address@) ==> final(self).address_list() == old(
                self,
            ).address_list().push(final(self).address_list().last()) && final(self).address_list().last()@
                == address@,
            final(self).utxo_view() == old(self).utxo_view(),
            final(self).network_view() == old(self).network_view(),
    {
        proof { use_type_invariant(&*self); }
        let mut taken = Wallet::new(self.network);
        std::mem::swap(&mut taken, self);
        let Wallet { keys: mut keys, utxos, addresses: mut addresses, network } = taken;
        let ghost kb = keypair_bytes(keypair);
        keys.insert(address.as_str(), keypair);
        addresses.insert(address.as_str());
        proof {
            if !old(self).address_view().contains(address@) {
                assert(addresses.items() =~= old(self).address_list().push(addresses.items().last()));
            }
        }
        *self = Wallet { keys, utxos, addresses, network };
        assert(self.key_view() =~= old(self).key_view().insert(address@, kb));
    }

    /// Generates a random key pair and records it under its new address.
    pub fn create_new_address(&mut self) -> (r: Result<String, KaspaError>)
        ensures
            r matches Ok(a) && exists|kp: (Seq<u8>, Seq<u8>)| #[trigger] keypair_valid(kp) && a@ == kaspa_address(
                old(self).network_view(),
                kp.1,
            ) && final(self).key_view() == old(self).key_view().insert(a@, kp),
            r matches Ok(a) && final(self).address_view() == old(self).address_view().insert(a@),
            final(self).utxo_view() == old(self).utxo_view(),
            final(self).network_view() == old(self).network_view(),
    {
        let (secret_key, public_key) = generate_keypair();
        let keypair = KaspaKeypair { secret_key, public_key };
        let address = self.public_key_to_kaspa_address(keypair.public_key.as_slice());
        let result = address.clone();
        let ghost kp = keypair_bytes(keypair);
        self.insert_keypair(address, keypair);
        assert(self.key_view() == old(self).key_view().insert(result@, kp));
        assert(keypair_valid(kp));
        Ok(result)
    }

    /// Imports a secret key given in hexadecimal and records it under its address.
    pub fn import_private_key(&mut self, private_key_hex: &str) -> (r: Result<String, KaspaError>)
        ensures
            !hex_decodable(private_key_hex@) ==> {
                &&& r matches Err(e) && e matches KaspaError::Custom(m) && starts_with(m@, "Invalid hex: "@)
                &&& final(self).same_state(*old(self))
            },
            hex_decodable(private_key_hex@) && !(hex_decoding(private_key_hex@).len() == 32
                && secret_key_valid(hex_decoding(private_key_hex@))) ==> {
                &&& r matches Err(e) && e matches KaspaError::Custom(m) && m@ == "Invalid private key: "@
                    + invalid_secret_key_text()
                &&& final(self).same_state(*old(self))
            },
            hex_decodable(private_key_hex@) && hex_decoding(private_key_hex@).len() == 32 && secret_key_valid(
                hex_decoding(private_key_hex@),
            ) ==> {
                let secret = hex_decoding(private_key_hex@);
                let address = kaspa_address(old(self).network_view(), public_key_of(secret));
                &&& r matches Ok(a) && a@ == address
                &&& final(self).key_view() == old(self).key_view().insert(address, (secret, public_key_of(secret)))
                &&& hex_bytes(final(self).key_view()[address].0) == hex_lowercase(private_key_hex@)
                &&& final(self).address_view() == old(self).address_view().insert(address)
                &&& final(self).utxo_view() == old(self).utxo_view()
                &&& final(self).network_view() == old(self).network_view()
            },
    {
        let bytes = match hex_decode(private_key_hex) {
            Ok(b) => b,
            Err(e) => {
                return Err(KaspaError::Custom(concat("Invalid hex: ", hex_error_text(&e).as_str())));
            },
        };
        match check_secret_key(bytes.as_slice()) {
            Ok(()) => {},
            Err(e) => {
                return Err(KaspaError::Custom(concat("Invalid private key: ", e.as_str())));
            },
        }
        proof { lemma_hex_decoding_reencodes(private_key_hex@); }
        let public_key = derive_public_key(bytes.as_slice());
        let keypair = KaspaKeypair { secret_key: bytes, public_key };
        let address = self.public_key_to_kaspa_address(keypair.public_key.as_slice());
        let result = address.clone();
        self.insert_keypair(address, keypair);
        Ok(result)
    }

    /// The secret key of an address of the wallet, in hexadecimal.
    pub fn export_private_key(&self, address: &str) -> (r: Result<String, KaspaError>)
        ensures
            !self.key_view().contains_key(address@) ==> (r matches Err(e) && e matches KaspaError::Custom(m)
                && m@ == "Address not found in wallet"@),
            self.key_view().contains_key(address@) ==> (r matches Ok(s) && s@ == hex_bytes(
                self.key_view()[address@].0,
            )),
    {
        match self.keys.get(address) {
            None => Err(KaspaError::Custom(String::from_str("Address not found in wallet"))),
            Some(kp) => Ok(hex_encode(kp.secret_key.as_slice())),
        }
    }

    /// The total amount of the unspent outputs recorded for an address.
    pub fn get_balance(&self, address: &str) -> (b: u64)
        requires
            self.balance_of(address@) <= u64::MAX,
        ensures
            b == self.balance_of(address@),
    {
        match self.utxos.get(address) {
            None => 0,
            Some(list) => {
                let mut total: u64 = 0;
                let mut i: usize = 0;
                while i < list.len()
                    invariant
                        i <= list@.len(),
                        utxo_total(list@) <= u64::MAX,
                        total == utxo_total(list@.take(i as int)),
                    decreases list@.len() - i,
                {
                    proof {
                        assert(list@.take(i + 1).drop_last() =~= list@.take(i as int));
                        lemma_utxo_total_prefix(list@, i + 1);
                    }
                    total = total + list[i].amount;
                    i = i + 1;
                }
                assert(list@.take(list@.len() as int) =~= list@);
                total
            },
        }
    }

    /// The sum of the balances of the wallet's own addresses.
    pub open spec fn total_balance(self) -> nat {
        sum_balances(self, self.address_list())
    }

    /// The sum of the balances of the wallet's own addresses.
    pub fn get_total_balance(&self) -> (b: u64)
        requires
            self.total_balance() <= u64::MAX,
        ensures
            b == self.total_balance(),
    {
        let n = self.addresses.len();
        let mut total: u64 = 0;
        let mut i: usize = 0;
        while i < n
            invariant
                n == self.address_list().len(),
                self.total_balance() <= u64::MAX,
                i <= n,
                total == sum_balances(*self, self.address_list().take(i as int)),
            decreases n - i,
        {
            let address = self.addresses.item_at(i);
            proof {
                let l = self.address_list();
                assert(l.take(i + 1).drop_last() =~= l.take(i as int));
                lemma_sum_balances_prefix(*self, l, i + 1);
            }
            total = total + self.get_balance(address.as_str());
            i = i + 1;
        }
        assert(self.address_list().take(n as int) =~= self.address_list());
        total
    }

    /// Records an unspent output for an address.
    pub fn add_utxo(&mut self, address: &str, utxo: UtxoEntry)
        ensures
            final(self).utxo_view() == old(self).utxo_view().insert(
                address@,
                (if old(self).utxo_view().contains_key(address@) {
                    old(self).utxo_view()[address@]
                } else {
                    Seq::empty()
                }).push(utxo),
            ),
            final(self).balance_of(address@) == old(self).balance_of(address@) + utxo.amount,
            forall|a: Seq<char>| a != address@ ==> #[trigger] final(self).balance_of(a) == old(self).balance_of(a),
            final(self).key_view() == old(self).key_view(),
            final(self).address_view() == old(self).address_view(),
            final(self).address_list() == old(self).address_list(),
            final(self).network_view() == old(self).network_view(),
    {
        proof { use_type_invariant(&*self); }
        let mut taken = Wallet::new(self.network);
        std::mem::swap(&mut taken, self);
        let Wallet { keys, utxos: mut utxos, addresses, network } = taken;
        let ghost before = utxos.view().map_values(|v: Vec<UtxoEntry>| v@);
        let mut list = match utxos.remove(address) {
            Some(l) => l,
            None => Vec::new(),
        };
        list.push(utxo);
        utxos.insert(address, list);
        *self = Wallet { keys, utxos, addresses, network };
        let ghost list_before = if before.contains_key(address@) { before[address@] } else { Seq::empty() };
        assert(self.utxo_view() =~= before.insert(address@, list_before.push(utxo)));
        assert(list_before.push(utxo).drop_last() =~= list_before);
        assert(utxo_total(list_before.push(utxo)) == utxo_total(list_before) + utxo.amount);
        assert(old(self).balance_of(address@) == utxo_total(list_before));
        assert(self.utxo_view()[address@] == list_before.push(utxo));
    }

    /// Leaves the unspent outputs as they are: an entry carries no outpoint to match
    /// against, so none is removed.
    pub fn remove_utxo(&mut self, address: &str, outpoint: &Outpoint) -> (r: Result<(), KaspaError>)
        ensures
            r is Ok,
            final(self).same_state(*old(self)),
    {
        Ok(())
    }

    /// The positions of the unspent outputs to spend for `amount` with a fee of
    /// `fee_per_input` per input (smallest amounts first, until they pay for the
    /// amount and the fees so far), and their total; an error when even all of them
    /// do not reach `amount`.
    pub fn select_utxos(&self, utxos: &[UtxoEntry], amount: u64, fee_per_input: u64) -> (r: Result<
        (Vec<usize>, u64),
        KaspaError,
    >)
        requires
            selected_total(amounts_of(utxos@), amount, fee_per_input) <= u64::MAX,
        ensures
            ({
                let amounts = amounts_of(utxos@);
                let total = selected_total(amounts, amount, fee_per_input);
                &&& total < amount ==> (r matches Err(e) && e matches KaspaError::Custom(m) && m@
                    == "Insufficient balance"@)
                &&& total >= amount ==> (r matches Ok((sel, t)) && t == total && sel@.map_values(
                    |x: usize| x as int,
                ) == selected_positions(amounts, amount, fee_per_input))
            }),
    {
        let n = utxos.len();
        let ghost amounts = amounts_of(utxos@);
        let mut amounts_vec: Vec<u64> = Vec::new();
        let mut i: usize = 0;
        while i < n
            invariant
                n == utxos@.len(),
                amounts == amounts_of(utxos@),
                i <= n,
                amounts_vec@ == amounts.take(i as int),
            decreases n - i,
        {
            amounts_vec.push(utxos[i].amount);
            assert(amounts.take(i + 1) =~= amounts.take(i as int).push(amounts[i as int]));
            i = i + 1;
        }
        assert(amounts.take(n as int) =~= amounts);
        let order = ascending_positions(&amounts_vec);
        let ghost o = order@.map_values(|x: usize| x as int);
        let ghost ordered = values_at(amounts, o);
        let ghost count = select_count_from(ordered, amount, fee_per_input, 0);
        proof {
            crate::order::lemma_ascending_order_permutation(amounts, n as nat);
            lemma_select_count_range(ordered, amount, fee_per_input, 0);
            assert(values_at(amounts, o.take(count as int)) =~= ordered.take(count as int));
        }
        // Spend the smallest first until the amount and the fees are covered.
        let mut selected: Vec<usize> = Vec::new();
        let mut total: u64 = 0;
        let mut k: usize = 0;
        let mut done = false;
        while k < n && !done
            invariant
                n == utxos@.len(),
                amounts == amounts_of(utxos@),
                o == order@.map_values(|x: usize| x as int),
                o == ascending_order(amounts, n as nat),
                ordered == values_at(amounts, o),
                o.len() == n,
                forall|q: int| 0 <= q < n ==> 0 <= #[trigger] o[q] < n,
                ordered.len() == n,
                count == select_count_from(ordered, amount, fee_per_input, 0),
                count <= n,
                amount_sum(ordered.take(count as int)) <= u64::MAX,
                k <= n,
                selected@.map_values(|x: usize| x as int) == o.take(k as int),
                total == amount_sum(ordered.take(k as int)),
                done ==> k >= 1 && select_count_from(ordered, amount, fee_per_input, 0) == k,
                !done ==> forall|j: nat| 1 <= j <= k ==> !#[trigger] covers(ordered, j, amount, fee_per_input),
            decreases n - k, if done { 0int } else { 1int },
        {
            let index = order[k];
            let ghost prev = selected@;
            selected.push(index);
            proof {
                assert(o[k as int] == index as int);
                assert(selected@ == prev.push(index));
                assert(selected@.map_values(|x: usize| x as int) =~= prev.map_values(|x: usize| x as int).push(
                    index as int,
                ));
                assert(o.take(k + 1) =~= o.take(k as int).push(o[k as int]));
                assert(ordered.take(k + 1).drop_last() =~= ordered.take(k as int));
                assert(ordered.take(k + 1).last() == utxos@[index as int].amount);
                lemma_select_count_skip(ordered, amount, fee_per_input, k as nat);
                lemma_select_count_range(ordered, amount, fee_per_input, k as nat);
                lemma_amount_sum_prefix(ordered.take(count as int), k + 1);
                assert(ordered.take(count as int).take(k + 1) =~= ordered.take(k + 1));
                assert(selected@.map_values(|x: usize| x as int) =~= o.take(k + 1));
            }
            total = total + utxos[index].amount;
            k = k + 1;
            proof { lemma_fee_product_bounded(k as u64, fee_per_input); }
            let needed: u128 = amount as u128 + (k as u128) * (fee_per_input as u128);
            if total as u128 >= needed {
                done = true;
                proof {
                    assert(covers(ordered, k as nat, amount, fee_per_input));
                    lemma_select_count_skip(ordered, amount, fee_per_input, (k - 1) as nat);
                }
            }
        }
        proof {
            if !done {
                lemma_select_count_skip(ordered, amount, fee_per_input, k as nat);
            }
            assert(amounts.len() == n);
            assert(select_count_from(ordered, amount, fee_per_input, 0) == k);
            assert(values_at(amounts, o.take(k as int)) =~= ordered.take(k as int));
            assert(selected_positions(amounts, amount, fee_per_input) == o.take(k as int));
        }
        if total < amount {
            return Err(KaspaError::Custom(String::from_str("Insufficient balance")));
        }
        Ok((selected, total))
    }

    /// One placeholder input per selected output, its outpoint named `tx_<position>`.
    pub fn build_inputs(&self, selected: &[usize]) -> (r: Result<Vec<TransactionInput>, KaspaError>)
        ensures
            r matches Ok(v) && v@.len() == selected@.len() && forall|p: int| 0 <= p < v@.len()
                ==> placeholder_input(#[trigger] v@[p], p),
    {
        let mut inputs: Vec<TransactionInput> = Vec::new();
        let mut index: usize = 0;
        while index < selected.len()
            invariant
                index <= selected@.len(),
                inputs@.len() == index,
                forall|p: int| 0 <= p < index ==> placeholder_input(#[trigger] inputs@[p], p),
            decreases selected@.len() - index,
        {
            let mut transaction_id = String::from_str("tx_");
            push_decimal(&mut transaction_id, index as u64);
            let input = TransactionInput {
                previous_outpoint: Outpoint { transaction_id, index: 0 },
                signature_script: String::new(),
                sequence: 0xFFFFFFFF,
                sig_op_count: 1,
            };
            inputs.push(input);
            index = index + 1;
        }
        Ok(inputs)
    }

    /// The locking script that pays an address.
    pub fn address_to_script(&self, address: &str) -> (r: Result<ScriptPublicKey, KaspaError>)
        ensures
            r matches Ok(s) && s.version == 0 && s.script_public_key@ == script_for(address@),
    {
        let digest = sha256(address.as_bytes());
        let mut script = String::from_str("76a914");
        script.append(hex_encode(digest.as_slice()).as_str());
        script.append("88ac");
        Ok(ScriptPublicKey { version: 0, script_public_key: script })
    }

    /// The payment output, then the change output when there is change.
    pub fn build_outputs(&self, to_address: &str, amount: u64, change_address: &str, change_amount: u64) -> (r:
        Result<Vec<TransactionOutput>, KaspaError>)
        ensures
            r matches Ok(v) && v@.len() == (if change_amount > 0 { 2nat } else { 1nat }) && pays(
                v@[0],
                amount,
                to_address@,
            ) && (change_amount > 0 ==> pays(v@[1], change_amount, change_address@)),
    {
        let mut outputs: Vec<TransactionOutput> = Vec::new();
        let to_script = match self.address_to_script(to_address) {
            Ok(s) => s,
            Err(e) => {
                return Err(e);
            },
        };
        outputs.push(TransactionOutput { value: amount, script_public_key: to_script, verbose_data: None });
        if change_amount > 0 {
            let change_script = match self.address_to_script(change_address) {
                Ok(s) => s,
                Err(e) => {
                    return Err(e);
                },
            };
            outputs.push(
                TransactionOutput { value: change_amount, script_public_key: change_script, verbose_data: None },
            );
        }
        Ok(outputs)
    }

    /// Builds an unsigned transaction paying `amount` from an address of the wallet to
    /// another, spending the smallest unspent outputs first and returning the change.
    pub fn build_transaction(&self, from_address: &str, to_address: &str, amount: u64, fee_per_input: u64) -> (r:
        Result<Transaction, KaspaError>)
        requires
            self.key_view().contains_key(from_address@) && self.utxo_view().contains_key(from_address@)
                ==> selected_total(amounts_of(self.utxo_view()[from_address@]), amount, fee_per_input) <= u64::MAX,
        ensures
            !self.key_view().contains_key(from_address@) ==> (r matches Err(e) && e matches KaspaError::Custom(m)
                && m@ == "From address not found"@),
            self.key_view().contains_key(from_address@) && !self.utxo_view().contains_key(from_address@) ==> (
            r matches Err(e) && e matches KaspaError::Custom(m) && m@ == "No UTXOs for address"@),
            self.key_view().contains_key(from_address@) && self.utxo_view().contains_key(from_address@) ==> ({
                let amounts = amounts_of(self.utxo_view()[from_address@]);
                let count = selected_positions(amounts, amount, fee_per_input).len();
                let total = selected_total(amounts, amount, fee_per_input);
                &&& total < amount + count * fee_per_input ==> (r matches Err(e) && e matches KaspaError::Custom(m)
                    && m@ == "Insufficient balance"@)
                &&& total >= amount + count * fee_per_input ==> (r matches Ok(tx) && built_transaction(
                    tx,
                    from_address@,
                    to_address@,
                    amount,
                    count,
                    (total - amount - count * fee_per_input) as nat,
                ))
            }),
    {
        if !self.keys.contains_key(from_address) {
            return Err(KaspaError::Custom(String::from_str("From address not found")));
        }
        let utxos = match self.utxos.get(from_address) {
            Some(u) => u,
            None => {
                return Err(KaspaError::Custom(String::from_str("No UTXOs for address")));
            },
        };
        proof {
            assert(self.utxo_view()[from_address@] == utxos@);
            assert(amounts_of(utxos@) =~= amounts_of(utxos@));
        }
        let (selected, total_input) = match self.select_utxos(utxos.as_slice(), amount, fee_per_input) {
            Ok(s) => s,
            Err(e) => {
                return Err(e);
            },
        };
        let ghost count = selected@.len();
        proof { lemma_fee_product_bounded(selected.len() as u64, fee_per_input); }
        let total_fee: u128 = (selected.len() as u128) * (fee_per_input as u128);
        let needed: u128 = amount as u128 + total_fee;
        if (total_input as u128) < needed {
            return Err(KaspaError::Custom(String::from_str("Insufficient balance")));
        }
        let change: u64 = (total_input as u128 - needed) as u64;
        let inputs = match self.build_inputs(selected.as_slice()) {
            Ok(v) => v,
            Err(e) => {
                return Err(e);
            },
        };
        let outputs = match self.build_outputs(to_address, amount, from_address, change) {
            Ok(v) => v,
            Err(e) => {
                return Err(e);
            },
        };
        let transaction = Transaction {
            version: 0,
            inputs,
            outputs,
            lock_time: 0,
            subnetwork_id: String::from_str(MAIN_NET_ID),
            gas: 0,
            payload: String::new(),
            verbose_data: None,
        };
        Ok(transaction)
    }

    /// What checking a hexadecimal signature of a message against an address gives:
    /// `None` when the address is not the wallet's or the signature is not 64 bytes
    /// of hexadecimal that parse as a compact signature, else whether it verifies.
    pub open spec fn verify_outcome(self, address: Seq<char>, message: Seq<char>, signature_hex: Seq<char>) -> Option<
        bool,
    > {
        if !self.key_view().contains_key(address) || !hex_decodable(signature_hex) {
            None
        } else {
            let sig = hex_decoding(signature_hex);
            if !(sig.len() == 64 && compact_signature_parses(sig)) {
                None
            } else {
                Some(ecdsa_verifies(message_digest(message), sig, self.key_view()[address].1))
            }
        }
    }

    /// Signs the SHA-256 digest of a message with the key of an address of the
    /// wallet; the compact signature, in hexadecimal. The signature verifies.
    pub fn sign_message(&self, address: &str, message: &str) -> (r: Result<String, KaspaError>)
        ensures
            !self.key_view().contains_key(address@) ==> (r matches Err(e) && e matches KaspaError::Custom(m)
                && m@ == "Address not found"@),
            self.key_view().contains_key(address@) ==> (r matches Ok(s) && s@ == hex_bytes(
                ecdsa_signature(message_digest(message@), self.key_view()[address@].0),
            )),
            r matches Ok(s) ==> self.verify_outcome(address@, message@, s@) == Some(true),
    {
        proof { use_type_invariant(self); }
        let keypair = match self.keys.get(address) {
            Some(kp) => kp,
            None => {
                return Err(KaspaError::Custom(String::from_str("Address not found")));
            },
        };
        let digest = sha256(message.as_bytes());
        let signature = ecdsa_sign(digest.as_slice(), keypair.secret_key.as_slice());
        let text = hex_encode(signature.as_slice());
        proof {
            lemma_hex_round_trip(signature@);
        }
        Ok(text)
    }

    /// Checks a hexadecimal compact signature of a message against the key of an
    /// address of the wallet.
    pub fn verify_message(&self, address: &str, message: &str, signature_hex: &str) -> (r: Result<
        bool,
        KaspaError,
    >)
        ensures
            !self.key_view().contains_key(address@) ==> (r matches Err(e) && e matches KaspaError::Custom(m)
                && m@ == "Address not found"@),
            self.key_view().contains_key(address@) && !hex_decodable(signature_hex@) ==> (r matches Err(e)
                && e matches KaspaError::Custom(m) && starts_with(m@, "Invalid signature hex: "@)),
            self.key_view().contains_key(address@) && hex_decodable(signature_hex@) && !(hex_decoding(
                signature_hex@,
            ).len() == 64 && compact_signature_parses(hex_decoding(signature_hex@))) ==> (r matches Err(e)
                && e matches KaspaError::Custom(m) && m@ == "Invalid signature: "@ + invalid_signature_text()),
            r is Ok <==> self.verify_outcome(address@, message@, signature_hex@) is Some,
            r matches Ok(b) ==> self.verify_outcome(address@, message@, signature_hex@) == Some(b),
    {
        proof { use_type_invariant(self); }
        let keypair = match self.keys.get(address) {
            Some(kp) => kp,
            None => {
                return Err(KaspaError::Custom(String::from_str("Address not found")));
            },
        };
        let signature = match hex_decode(signature_hex) {
            Ok(b) => b,
            Err(e) => {
                return Err(KaspaError::Custom(concat("Invalid signature hex: ", hex_error_text(&e).as_str())));
            },
        };
        let digest = sha256(message.as_bytes());
        match check_compact_signature(signature.as_slice()) {
            Ok(()) => {},
            Err(e) => {
                return Err(KaspaError::Custom(concat("Invalid signature: ", e.as_str())));
            },
        }
        Ok(ecdsa_verify(digest.as_slice(), signature.as_slice(), keypair.public_key.as_slice()))
    }

    /// The addresses that key the wallet's key pairs, in the order they were added.
    pub closed spec fn key_list(self) -> Seq<String> {
        self.keys.keys()
    }

    /// The wallet's network and, for each key in order, its address and both keys in
    /// hexadecimal. Restoring the backup gives back the same keys.
    pub fn backup_wallet(&self) -> (b: WalletBackup)
        ensures
            b.network == self.network_view(),
            b.keys@.len() == self.key_list().len(),
            forall|j: int| 0 <= j < b.keys@.len() ==> {
                let a = self.key_list()[j]@;
                &&& (#[trigger] b.keys@[j]).address@ == a
                &&& b.keys@[j].private_key@ == hex_bytes(self.key_view()[a].0)
                &&& b.keys@[j].public_key@ == hex_bytes(self.key_view()[a].1)
            },
            self.key_view().dom() == text_set(self.key_list()),
            backs_up(b, *self),
            self.address_view() == self.key_view().dom(),
    {
        proof { use_type_invariant(self); }
        let n = self.keys.len();
        let ghost list = self.key_list();
        let ghost kv = self.key_view();
        let mut key_backups: Vec<KeyBackup> = Vec::new();
        let mut i: usize = 0;
        while i < n
            invariant
                n == list.len(),
                list == self.key_list(),
                kv == self.key_view(),
                distinct(list),
                kv.dom() == text_set(list),
                forall|a: Seq<char>| #[trigger] kv.contains_key(a) ==> keypair_valid(kv[a]) && a == kaspa_address(
                    self.network_view(),
                    kv[a].1,
                ),
                i <= n,
                key_backups@.len() == i,
                forall|j: int| 0 <= j < i ==> {
                    let a = list[j]@;
                    &&& (#[trigger] key_backups@[j]).address@ == a
                    &&& key_backups@[j].private_key@ == hex_bytes(kv[a].0)
                    &&& key_backups@[j].public_key@ == hex_bytes(kv[a].1)
                },
                restored_keys(self.network_view(), key_backups@) == Some(
                    kv.restrict(text_set(list.take(i as int))),
                ),
            decreases n - i,
        {
            let address = self.keys.key_at(i);
            let keypair = self.keys.value_at(i);
            let ghost a = address@;
            proof {
                assert(list[i as int]@ == a);
                assert(text_set(list).contains(a));
                assert(kv.contains_key(a));
                assert(kv[a] == keypair_bytes(*keypair));
                assert(keypair_valid(kv[a]));
                lemma_hex_round_trip(keypair.secret_key@);
            }
            let kb = KeyBackup {
                address: address.clone(),
                private_key: hex_encode(keypair.secret_key.as_slice()),
                public_key: hex_encode(keypair.public_key.as_slice()),
            };
            let ghost before = key_backups@;
            key_backups.push(kb);
            proof {
                assert(key_backups@.drop_last() =~= before);
                assert(importable(kb));
                assert(text_set(list.take(i + 1)) =~= text_set(list.take(i as int)).insert(a)) by {
                    assert forall|k: Seq<char>| #[trigger] text_set(list.take(i + 1)).contains(k) implies text_set(
                        list.take(i as int),
                    ).insert(a).contains(k) by {
                        let j = choose|j: int| 0 <= j < list.take(i + 1).len() && (#[trigger] list.take(i + 1)[j])@ == k;
                        if j < i {
                            assert(list.take(i as int)[j] == list[j]);
                        }
                    }
                    assert forall|k: Seq<char>| text_set(list.take(i as int)).insert(a).contains(k) implies #[trigger] text_set(
                        list.take(i + 1),
                    ).contains(k) by {
                        if k == a {
                            assert(list.take(i + 1)[i as int] == list[i as int]);
                        } else {
                            let j = choose|j: int| 0 <= j < list.take(i as int).len() && (#[trigger] list.take(i as int)[j])@ == k;
                            assert(list.take(i + 1)[j] == list[j]);
                        }
                    }
                }
                assert(kv.restrict(text_set(list.take(i + 1))) =~= kv.restrict(text_set(list.take(i as int))).insert(
                    a,
                    kv[a],
                ));
            }
            i = i + 1;
        }
        proof {
            assert(list.take(n as int) =~= list);
            assert(kv.restrict(text_set(list)) =~= kv);
        }
        WalletBackup { network: self.network, keys: key_backups }
    }

    /// A wallet on the backup's network with the backup's secret keys imported in
    /// order (addresses recomputed from the keys); the error of the first key that
    /// cannot be imported.
    pub fn restore_from_backup(backup: WalletBackup) -> (r: Result<Wallet, KaspaError>)
        ensures
            r is Ok <==> restored_keys(backup.network, backup.keys@) is Some,
            r matches Ok(w) ==> restored_from(w, backup),
            r matches Err(e) ==> exists|j: int| {
                &&& 0 <= j < backup.keys@.len()
                &&& restored_keys(backup.network, backup.keys@.take(j)) is Some
                &&& !importable(#[trigger] backup.keys@[j])
                &&& e matches KaspaError::Custom(m) && starts_with(m@, import_error_prefix(backup.keys@[j]))
            },
    {
        let mut wallet = Wallet::new(backup.network);
        let n = backup.keys.len();
        let mut i: usize = 0;
        while i < n
            invariant
                n == backup.keys@.len(),
                i <= n,
                wallet.network_view() == backup.network,
                restored_keys(backup.network, backup.keys@.take(i as int)) == Some(wallet.key_view()),
                wallet.address_view() == wallet.key_view().dom(),
                wallet.utxo_view() == Map::<Seq<char>, Seq<UtxoEntry>>::empty(),
            decreases n - i,
        {
            let kb = &backup.keys[i];
            proof {
                assert(backup.keys@.take(i + 1).drop_last() =~= backup.keys@.take(i as int));
                assert(backup.keys@.take(i + 1).last() == *kb);
            }
            match wallet.import_private_key(kb.private_key.as_str()) {
                Ok(_) => {
                    assert(wallet.address_view() =~= wallet.key_view().dom());
                },
                Err(e) => {
                    proof {
                        lemma_restored_keys_none_after(backup.network, backup.keys@, i as int);
                        crate::text::lemma_starts_with_concat("Invalid private key: "@, invalid_secret_key_text());
                    }
                    return Err(e);
                },
            }
            i = i + 1;
        }
        assert(backup.keys@.take(n as int) =~= backup.keys@);
        Ok(wallet)
    }

    /// Whether an address is one of the wallet's own.
    pub fn is_my_address(&self, address: &str) -> (r: bool)
        ensures
            r == self.address_view().contains(address@),
    {
        self.addresses.contains(address)
    }

    /// The wallet's own addresses, in the order they were added.
    pub fn get_all_address(&self) -> (v: Vec<String>)
        ensures
            v@ == self.address_list(),
            text_set(v@) == self.address_view(),
            distinct(v@),
    {
        self.addresses.to_vec()
    }
}

/// A wallet whose keys are derived one after the other from a seed phrase.
pub struct HDWallet {
    base_wallet: Wallet,
    seed: Vec<u8>,
    derivation_path: String,
    key_index: u32,
}

impl HDWallet {
    #[verifier::type_invariant]
    spec fn inv(self) -> bool {
        self.seed@.len() == 64
    }

    /// The wallet that holds the derived keys.
    pub closed spec fn wallet(self) -> Wallet {
        self.base_wallet
    }

    /// The 64-byte seed.
    pub closed spec fn seed_view(self) -> Seq<u8> {
        self.seed@
    }

    /// The index of the next key to derive.
    pub closed spec fn next_index(self) -> u32 {
        self.key_index
    }

    /// The derivation path recorded with the seed.
    pub closed spec fn path_view(self) -> Seq<char> {
        self.derivation_path@
    }

    /// An HD wallet on a network, seeded from a phrase, with no key derived yet.
    pub fn new(network: NetworkType, seed_phrase: &str) -> (r: Result<HDWallet, KaspaError>)
        ensures
            r matches Ok(w) && w.seed_view() == phrase_seed(vstd::utf8::encode_utf8(seed_phrase@)) && w.next_index() == 0
                && w.path_view() == "m/44'/111111'/0'/0"@ && w.wallet().network_view() == network
                && w.wallet().key_view() == Map::<Seq<char>, (Seq<u8>, Seq<u8>)>::empty()
                && w.wallet().address_view() == Set::<Seq<char>>::empty()
                && w.wallet().utxo_view() == Map::<Seq<char>, Seq<UtxoEntry>>::empty(),
    {
        let seed = Self::phrase_to_seed(seed_phrase);
        Ok(HDWallet {
            base_wallet: Wallet::new(network),
            seed,
            derivation_path: String::from_str("m/44'/111111'/0'/0"),
            key_index: 0,
        })
    }

    /// The wallet that holds the derived keys.
    pub fn base_wallet(&self) -> (w: &Wallet)
        ensures
            *w == self.wallet(),
    {
        &self.base_wallet
    }

    /// The index of the next key to derive.
    pub fn key_index(&self) -> (i: u32)
        ensures
            i == self.next_index(),
    {
        self.key_index
    }

    /// The seed of a phrase: its first 64 bytes, padded with zeros.
    pub fn phrase_to_seed(phrase: &str) -> (seed: Vec<u8>)
        ensures
            seed@ == phrase_seed(vstd::utf8::encode_utf8(phrase@)),
    {
        let bytes = phrase.as_bytes();
        let len: usize = if bytes.len() < 64 { bytes.len() } else { 64 };
        let mut seed: Vec<u8> = Vec::new();
        let mut i: usize = 0;
        while i < 64
            invariant
                bytes@ == vstd::utf8::encode_utf8(phrase@),
                len == if bytes@.len() < 64 { bytes@.len() } else { 64 },
                i <= 64,
                seed@.len() == i,
                forall|j: int| 0 <= j < i ==> seed@[j] == phrase_seed(bytes@)[j],
            decreases 64 - i,
        {
            if i < len {
                seed.push(bytes[i]);
            } else {
                seed.push(0);
            }
            i = i + 1;
        }
        assert(seed@ =~= phrase_seed(bytes@));
        seed
    }

    /// The key pair of an index: the SHA-256 of the seed and the big-endian index,
    /// taken as a secret key; an error when those bytes are not a valid secret key.
    pub fn derive_key(&self, index: u32) -> (r: Result<KaspaKeypair, KaspaError>)
        ensures
            secret_key_valid(derived_secret(self.seed_view(), index)) ==> (r matches Ok(kp) && keypair_bytes(kp) == (
                derived_secret(self.seed_view(), index),
                public_key_of(derived_secret(self.seed_view(), index)),
            )),
            !secret_key_valid(derived_secret(self.seed_view(), index)) ==> (r matches Err(e) && e matches KaspaError::Custom(m)
                && m@ == "Key derivation failed: "@ + invalid_secret_key_text()),
            r matches Ok(kp) ==> keypair_valid(keypair_bytes(kp)),
    {
        let mut data: Vec<u8> = self.seed.clone();
        data.push((index / 0x100_0000) as u8);
        data.push(((index / 0x1_0000) % 256) as u8);
        data.push(((index / 256) % 256) as u8);
        data.push((index % 256) as u8);
        assert(data@ =~= self.seed_view() + be_bytes(index));
        let secret = sha256(data.as_slice());
        match check_secret_key(secret.as_slice()) {
            Ok(()) => {},
            Err(e) => {
                return Err(KaspaError::Custom(concat("Key derivation failed: ", e.as_str())));
            },
        }
        let public_key = derive_public_key(secret.as_slice());
        Ok(KaspaKeypair { secret_key: secret, public_key })
    }

    /// Derives the key of the next index, records it in the wallet under its address
    /// and moves to the following index.
    pub fn generate_next_address(&mut self) -> (r: Result<String, KaspaError>)
        requires
            old(self).next_index() < u32::MAX,
        ensures
            ({
                let secret = derived_secret(old(self).seed_view(), old(self).next_index());
                let address = kaspa_address(old(self).wallet().network_view(), public_key_of(secret));
                &&& secret_key_valid(secret) ==> {
                    &&& r matches Ok(a) && a@ == address
                    &&& final(self).wallet().key_view() == old(self).wallet().key_view().insert(
                        address,
                        (secret, public_key_of(secret)),
                    )
                    &&& final(self).wallet().address_view() == old(self).wallet().address_view().insert(address)
                    &&& final(self).next_index() == old(self).next_index() + 1
                }
                &&& !secret_key_valid(secret) ==> {
                    &&& r matches Err(e) && e matches KaspaError::Custom(m) && m@ == "Key derivation failed: "@
                        + invalid_secret_key_text()
                    &&& final(self).wallet().same_state(old(self).wallet())
                    &&& final(self).next_index() == old(self).next_index()
                }
            }),
            r is Ok <==> hd_address(old(self).seed_view(), old(self).wallet().network_view(), old(self).next_index())
                is Some,
            r matches Ok(a) ==> Some(a@) == hd_address(
                old(self).seed_view(),
                old(self).wallet().network_view(),
                old(self).next_index(),
            ),
            final(self).wallet().utxo_view() == old(self).wallet().utxo_view(),
            final(self).wallet().network_view() == old(self).wallet().network_view(),
            final(self).seed_view() == old(self).seed_view(),
    {
        proof { use_type_invariant(&*self); }
        let derived = match self.derive_key(self.key_index) {
            Ok(kp) => kp,
            Err(e) => {
                return Err(e);
            },
        };
        let address = self.base_wallet.public_key_to_kaspa_address(derived.public_key.as_slice());
        let result = address.clone();
        let mut base_wallet = Wallet::new(self.base_wallet.network);
        std::mem::swap(&mut base_wallet, &mut self.base_wallet);
        base_wallet.insert_keypair(address, derived);
        self.base_wallet = base_wallet;
        self.key_index = self.key_index + 1;
        Ok(result)
    }
}

/// Whether `b` backs up `w`: the same network, and keys whose import, in order,
/// gives back exactly the keys of `w`.
pub open spec fn backs_up(b: WalletBackup, w: Wallet) -> bool {
    &&& b.network == w.network_view()
    &&& restored_keys(b.network, b.keys@) == Some(w.key_view())
}

/// Whether `w` is what restoring `b` gives: the backup's network, the keys its
/// import gives, an address for each key, and no unspent outputs.
pub open spec fn restored_from(w: Wallet, b: WalletBackup) -> bool {
    &&& w.network_view() == b.network
    &&& Some(w.key_view()) == restored_keys(b.network, b.keys@)
    &&& w.address_view() == w.key_view().dom()
    &&& w.utxo_view() == Map::<Seq<char>, Seq<UtxoEntry>>::empty()
}

/// Restoring a backup of a wallet succeeds, and gives a wallet on the same network
/// with the same addresses (so `get_all_address` lists the same set) and the same
/// keys, and no unspent outputs.
pub proof fn lemma_backup_restore(w: Wallet, b: WalletBackup, w2: Wallet)
    requires
        backs_up(b, w),
        w.address_view() == w.key_view().dom(),
    ensures
        restored_keys(b.network, b.keys@) is Some,
        restored_from(w2, b) ==> {
            &&& w2.network_view() == w.network_view()
            &&& w2.key_view() == w.key_view()
            &&& w2.address_view() == w.address_view()
            &&& text_set(w2.address_list()) == text_set(w.address_list())
            &&& w2.utxo_view() == Map::<Seq<char>, Seq<UtxoEntry>>::empty()
        },
{
}

/// The sum of the balances of the addresses in `list`.
pub open spec fn sum_balances(w: Wallet, list: Seq<String>) -> nat
    decreases list.len(),
{
    if list.len() == 0 {
        0
    } else {
        sum_balances(w, list.drop_last()) + w.balance_of(list.last()@)
    }
}

/// Changing one address's balance by `v` changes the sum over a list of distinct
/// addresses by `v` when the address is listed, and not at all otherwise.
proof fn lemma_sum_balances_change(w1: Wallet, w2: Wallet, list: Seq<String>, a: Seq<char>, v: nat)
    requires
        distinct(list),
        w2.balance_of(a) == w1.balance_of(a) + v,
        forall|x: Seq<char>| x != a ==> #[trigger] w2.balance_of(x) == w1.balance_of(x),
    ensures
        sum_balances(w2, list) == sum_balances(w1, list) + if text_set(list).contains(a) { v } else { 0 },
    decreases list.len(),
{
    if list.len() > 0 {
        let rest = list.drop_last();
        assert(distinct(rest)) by {
            assert forall|i: int, j: int| 0 <= i < j < rest.len() implies rest[i]@ != rest[j]@ by {
                assert(rest[i] == list[i] && rest[j] == list[j]);
            }
        }
        lemma_sum_balances_change(w1, w2, rest, a, v);
        let last = list.last()@;
        if text_set(rest).contains(a) {
            let i = choose|i: int| 0 <= i < rest.len() && rest[i]@ == a;
            assert(list[i] == rest[i]);
            assert(last != a);
            assert(text_set(list).contains(a));
        } else {
            assert(text_set(list).contains(a) <==> last == a) by {
                if text_set(list).contains(a) {
                    let i = choose|i: int| 0 <= i < list.len() && list[i]@ == a;
                    if i < rest.len() {
                        assert(rest[i] == list[i]);
                    }
                }
            }
        }
    }
}

/// The total balance is the sum over the wallet's own addresses: when one own
/// address gains `v` (as recording an output of amount `v` does) and no other
/// balance changes, the total grows by exactly `v`.
pub proof fn lemma_total_balance_grows_by_output(w1: Wallet, w2: Wallet, a: Seq<char>, v: nat)
    requires
        w2.address_list() == w1.address_list(),
        distinct(w1.address_list()),
        w1.address_view().contains(a),
        w2.balance_of(a) == w1.balance_of(a) + v,
        forall|x: Seq<char>| x != a ==> #[trigger] w2.balance_of(x) == w1.balance_of(x),
    ensures
        w2.total_balance() == w1.total_balance() + v,
{
    lemma_sum_balances_change(w1, w2, w1.address_list(), a, v);
}

proof fn lemma_sum_balances_prefix(w: Wallet, list: Seq<String>, i: int)
    requires
        0 <= i <= list.len(),
    ensures
        sum_balances(w, list.take(i)) <= sum_balances(w, list),
        i > 0 ==> w.balance_of(list[i - 1]@) <= sum_balances(w, list),
    decreases list.len() - i,
{
    if i < list.len() {
        lemma_sum_balances_prefix(w, list, i + 1);
        assert(list.take(i + 1).drop_last() =~= list.take(i));
    } else {
        assert(list.take(i) =~= list);
    }
    if i > 0 {
        assert(list.take(i).drop_last() =~= list.take(i - 1));
        assert(list.take(i).last() == list[i - 1]);
    }
}

/// A count of inputs times a fee, plus an amount, fits in 128 bits.
proof fn lemma_fee_product_bounded(count: u64, fee: u64)
    ensures
        (count as u128) * (fee as u128) <= 0xFFFF_FFFF_FFFF_FFFE_0000_0000_0000_0001u128,
{
    assert((count as u128) * (fee as u128) <= 0xFFFF_FFFF_FFFF_FFFE_0000_0000_0000_0001u128) by (nonlinear_arith)
        requires
            count <= 0xFFFF_FFFF_FFFF_FFFFu64,
            fee <= 0xFFFF_FFFF_FFFF_FFFFu64,
    ;
}

/// Once a key of the backup cannot be imported, no longer prefix can be restored.
proof fn lemma_restored_keys_none_after(network: NetworkType, backups: Seq<KeyBackup>, i: int)
    requires
        0 <= i < backups.len(),
        restored_keys(network, backups.take(i)) is Some,
        !importable(backups[i]),
    ensures
        restored_keys(network, backups) is None,
    decreases backups.len(),
{
    if backups.len() == i + 1 {
        assert(backups.drop_last() =~= backups.take(i));
    } else {
        let rest = backups.drop_last();
        assert(rest.take(i) =~= backups.take(i));
        lemma_restored_keys_none_after(network, rest, i);
    }
}

proof fn lemma_utxo_total_prefix(list: Seq<UtxoEntry>, i: int)
    requires
        0 <= i <= list.len(),
    ensures
        utxo_total(list.take(i)) <= utxo_total(list),
    decreases list.len() - i,
{
    if i < list.len() {
        lemma_utxo_total_prefix(list, i + 1);
        assert(list.take(i + 1).drop_last() =~= list.take(i));
    } else {
        assert(list.take(i) =~= list);
    }
}

} // verus!
