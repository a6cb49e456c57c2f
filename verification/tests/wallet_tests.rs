use bech32::ToBase32;
use kaspa_client::types::{KaspaError, NetworkType, Outpoint, ScriptPublicKey, UtxoEntry};
use kaspa_client::wallet::{network_type_from_name, HDWallet, Wallet};
use ripemd::Ripemd160;
use sha2::{Digest, Sha256};

const KEY_HEX: &str = "0101010101010101010101010101010101010101010101010101010101010101";

fn public_key_of(secret: &[u8]) -> Vec<u8> {
    let sk = secp256k1::SecretKey::from_slice(secret).unwrap();
    secp256k1::PublicKey::from_secret_key(&secp256k1::Secp256k1::new(), &sk).serialize().to_vec()
}

fn expected_address(version: u8, public_key: &[u8]) -> String {
    let digest = Ripemd160::digest(Sha256::digest(public_key));
    let mut payload = vec![version];
    payload.extend_from_slice(&digest);
    let check = Sha256::digest(Sha256::digest(&payload));
    payload.extend_from_slice(&check[..4]);
    bs58::encode(payload).into_string()
}

fn utxo(amount: u64) -> UtxoEntry {
    UtxoEntry {
        amount,
        script_public_key: ScriptPublicKey { version: 0, script_public_key: String::new() },
        block_daa_score: 0,
        is_coinbase: false,
    }
}

#[test]
fn imported_key_gives_base58check_address() {
    let mut w = Wallet::new(NetworkType::Mainnet);
    let address = w.import_private_key(KEY_HEX).unwrap();
    let pk = public_key_of(&[1u8; 32]);
    assert_eq!(address, expected_address(0x00, &pk));
    assert!(w.is_my_address(&address));
    assert_eq!(w.get_all_address(), vec![address.clone()]);
    assert_eq!(w.export_private_key(&address).unwrap(), KEY_HEX);
    let mut t = Wallet::new(NetworkType::Testnet);
    assert_eq!(t.import_private_key(KEY_HEX).unwrap(), expected_address(0x6f, &pk));
}

#[test]
fn address_of_public_key_and_checksum() {
    let w = Wallet::new(NetworkType::Devnet);
    let pk = public_key_of(&[7u8; 32]);
    assert_eq!(w.public_key_to_kaspa_address(&pk), expected_address(0x6f, &pk));
    let data = [1u8, 2, 3];
    let check = Sha256::digest(Sha256::digest(data));
    assert_eq!(Wallet::calculate_checksum(&data), [check[0], check[1], check[2], check[3]]);
}

#[test]
fn bech32_address_uses_network_prefix() {
    let pk = public_key_of(&[1u8; 32]);
    let digest = Ripemd160::digest(Sha256::digest(&pk));
    let expected = bech32::encode("kaspatest", digest.to_base32(), bech32::Variant::Bech32).unwrap();
    let w = Wallet::new(NetworkType::Testnet);
    assert_eq!(w.public_key_to_bech32_address(&pk).unwrap(), expected);
    let m = Wallet::new(NetworkType::Mainnet);
    assert!(m.public_key_to_bech32_address(&pk).unwrap().starts_with("kaspa1"));
}

#[test]
fn bad_private_keys_are_refused() {
    let mut w = Wallet::new(NetworkType::Mainnet);
    match w.import_private_key("zz") {
        Err(KaspaError::Custom(m)) => assert!(m.starts_with("Invalid hex: ")),
        other => panic!("unexpected {:?}", other),
    }
    let zero = "00".repeat(32);
    match w.import_private_key(&zero) {
        Err(KaspaError::Custom(m)) => assert_eq!(m, "Invalid private key: malformed or out-of-range secret key"),
        other => panic!("unexpected {:?}", other),
    }
    assert!(w.get_all_address().is_empty());
    match w.export_private_key("nowhere") {
        Err(KaspaError::Custom(m)) => assert_eq!(m, "Address not found in wallet"),
        other => panic!("unexpected {:?}", other),
    }
}

#[test]
fn new_addresses_belong_to_the_wallet() {
    let mut w = Wallet::new(NetworkType::Mainnet);
    let a = w.create_new_address().unwrap();
    let b = w.create_new_address().unwrap();
    assert_ne!(a, b);
    assert!(w.is_my_address(&a) && w.is_my_address(&b));
    assert_eq!(w.get_all_address().len(), 2);
}

#[test]
fn balances_sum_unspent_outputs() {
    let mut w = Wallet::new(NetworkType::Mainnet);
    let a = w.import_private_key(KEY_HEX).unwrap();
    assert_eq!(w.get_balance(&a), 0);
    w.add_utxo(&a, utxo(5));
    w.add_utxo(&a, utxo(7));
    w.add_utxo("elsewhere", utxo(100));
    assert_eq!(w.get_balance(&a), 12);
    assert_eq!(w.get_balance("elsewhere"), 100);
    // Only the wallet's own addresses count towards its total.
    assert_eq!(w.get_total_balance(), 12);
    let outpoint = Outpoint { transaction_id: "t".to_string(), index: 0 };
    assert!(w.remove_utxo(&a, &outpoint).is_ok());
    assert_eq!(w.get_balance(&a), 12);
}

#[test]
fn outputs_are_selected_smallest_first() {
    let w = Wallet::new(NetworkType::Mainnet);
    let utxos = vec![utxo(5), utxo(1), utxo(3)];
    assert_eq!(w.select_utxos(&utxos, 4, 0).unwrap(), (vec![1, 2], 4));
    assert_eq!(w.select_utxos(&utxos, 4, 1).unwrap(), (vec![1, 2, 0], 9));
    match w.select_utxos(&utxos, 100, 0) {
        Err(KaspaError::Custom(m)) => assert_eq!(m, "Insufficient balance"),
        other => panic!("unexpected {:?}", other),
    }
}

#[test]
fn transaction_pays_amount_and_change() {
    let mut w = Wallet::new(NetworkType::Mainnet);
    let from = w.import_private_key(KEY_HEX).unwrap();
    w.add_utxo(&from, utxo(5));
    w.add_utxo(&from, utxo(1));
    w.add_utxo(&from, utxo(3));
    let tx = w.build_transaction(&from, "receiver", 4, 1).unwrap();
    assert_eq!(tx.inputs.len(), 3);
    assert_eq!(tx.inputs[2].previous_outpoint.transaction_id, "tx_2");
    assert_eq!(tx.inputs[0].sequence, 0xFFFF_FFFF);
    assert_eq!(tx.inputs[0].sig_op_count, 1);
    assert_eq!(tx.outputs.len(), 2);
    assert_eq!(tx.outputs[0].value, 4);
    assert_eq!(tx.outputs[1].value, 2);
    let script = format!("76a914{}88ac", hex::encode(Sha256::digest(b"receiver")));
    assert_eq!(tx.outputs[0].script_public_key.script_public_key, script);
    assert_eq!(tx.subnetwork_id, "0".repeat(40));
    assert_eq!(tx.version, 0);
    assert_eq!(tx.payload, "");
}

#[test]
fn transaction_errors() {
    let mut w = Wallet::new(NetworkType::Mainnet);
    match w.build_transaction("nobody", "r", 1, 0) {
        Err(KaspaError::Custom(m)) => assert_eq!(m, "From address not found"),
        other => panic!("unexpected {:?}", other),
    }
    let from = w.import_private_key(KEY_HEX).unwrap();
    match w.build_transaction(&from, "r", 1, 0) {
        Err(KaspaError::Custom(m)) => assert_eq!(m, "No UTXOs for address"),
        other => panic!("unexpected {:?}", other),
    }
    w.add_utxo(&from, utxo(10));
    // Selection succeeds on the amount, but the fee is not covered.
    match w.build_transaction(&from, "r", 10, 1) {
        Err(KaspaError::Custom(m)) => assert_eq!(m, "Insufficient balance"),
        other => panic!("unexpected {:?}", other),
    }
    let exact = w.build_transaction(&from, "r", 9, 1).unwrap();
    assert_eq!(exact.outputs.len(), 1);
}

#[test]
fn signed_messages_verify() {
    let mut w = Wallet::new(NetworkType::Mainnet);
    let a = w.import_private_key(KEY_HEX).unwrap();
    let sig = w.sign_message(&a, "hello").unwrap();
    assert_eq!(sig.len(), 128);
    assert_eq!(w.verify_message(&a, "hello", &sig).unwrap(), true);
    assert_eq!(w.verify_message(&a, "hullo", &sig).unwrap(), false);
    match w.verify_message(&a, "hello", "xyz") {
        Err(KaspaError::Custom(m)) => assert!(m.starts_with("Invalid signature hex: ")),
        other => panic!("unexpected {:?}", other),
    }
    match w.verify_message(&a, "hello", "abcd") {
        Err(KaspaError::Custom(m)) => assert_eq!(m, "Invalid signature: malformed signature"),
        other => panic!("unexpected {:?}", other),
    }
    match w.sign_message("other", "hello") {
        Err(KaspaError::Custom(m)) => assert_eq!(m, "Address not found"),
        other => panic!("unexpected {:?}", other),
    }
}

#[test]
fn backup_restores_the_same_keys() {
    let mut w = Wallet::new(NetworkType::Testnet);
    let a = w.import_private_key(KEY_HEX).unwrap();
    let b = w.create_new_address().unwrap();
    let backup = w.backup_wallet();
    assert_eq!(backup.network, NetworkType::Testnet);
    assert_eq!(backup.keys.len(), 2);
    assert_eq!(backup.keys[0].address, a);
    assert_eq!(backup.keys[0].private_key, KEY_HEX);
    assert_eq!(backup.keys[0].public_key, hex::encode(public_key_of(&[1u8; 32])));
    let restored = Wallet::restore_from_backup(backup).unwrap();
    assert!(restored.is_my_address(&a) && restored.is_my_address(&b));
    let mut before = w.get_all_address();
    let mut after = restored.get_all_address();
    before.sort();
    after.sort();
    assert_eq!(before, after);
    assert_eq!(restored.get_total_balance(), 0);
    assert_eq!(restored.export_private_key(&b).unwrap(), w.export_private_key(&b).unwrap());
}

#[test]
fn network_names() {
    assert_eq!(network_type_from_name("mainnet"), Some(NetworkType::Mainnet));
    assert_eq!(network_type_from_name("simnet"), Some(NetworkType::Simnet));
    assert_eq!(network_type_from_name("Mainnet"), None);
}

#[test]
fn seed_is_phrase_padded_to_64_bytes() {
    let seed = HDWallet::phrase_to_seed("abc");
    assert_eq!(seed.len(), 64);
    assert_eq!(&seed[..3], b"abc");
    assert!(seed[3..].iter().all(|b| *b == 0));
    let long = "x".repeat(70);
    assert_eq!(HDWallet::phrase_to_seed(&long), vec![b'x'; 64]);
}

#[test]
fn hd_wallet_derives_keys_in_order() {
    let mut hd = HDWallet::new(NetworkType::Mainnet, "correct horse battery staple").unwrap();
    assert_eq!(hd.key_index(), 0);
    let first = hd.generate_next_address().unwrap();
    let second = hd.generate_next_address().unwrap();
    assert_ne!(first, second);
    assert_eq!(hd.key_index(), 2);
    assert!(hd.base_wallet().is_my_address(&first));
    let mut data = HDWallet::phrase_to_seed("correct horse battery staple");
    data.extend_from_slice(&0u32.to_be_bytes());
    let secret = Sha256::digest(&data);
    let kp = hd.derive_key(0).unwrap();
    assert_eq!(kp.secret_key, secret.to_vec());
    assert_eq!(first, expected_address(0x00, &public_key_of(&secret)));
}

#[test]
fn exported_key_imports_to_the_same_address() {
    let mut w = Wallet::new(NetworkType::Mainnet);
    let a = w.create_new_address().unwrap();
    let exported = w.export_private_key(&a).unwrap();
    assert_eq!(exported.len(), 64);
    let mut other = Wallet::new(NetworkType::Mainnet);
    assert_eq!(other.import_private_key(&exported).unwrap(), a);
    assert_eq!(other.export_private_key(&a).unwrap(), exported);
}

#[test]
fn export_gives_lowercase_hex_of_imported_key() {
    let upper = "0A0B0C0D0E0F0102030405060708090A0B0C0D0E0F0102030405060708090A0B";
    let mut w = Wallet::new(NetworkType::Mainnet);
    let a = w.import_private_key(upper).unwrap();
    assert!(w.is_my_address(&a));
    assert_eq!(w.export_private_key(&a).unwrap(), upper.to_lowercase());
}

#[test]
fn hd_wallets_from_phrases_sharing_64_bytes_agree() {
    let base = "y".repeat(64);
    let mut h1 = HDWallet::new(NetworkType::Testnet, &format!("{}tail one", base)).unwrap();
    let mut h2 = HDWallet::new(NetworkType::Testnet, &format!("{}another", base)).unwrap();
    for i in 0..3u32 {
        let a1 = h1.generate_next_address().unwrap();
        let a2 = h2.generate_next_address().unwrap();
        assert_eq!(a1, a2);
        assert!(h1.base_wallet().is_my_address(&a1));
        assert_eq!(h1.key_index(), i + 1);
    }
}
