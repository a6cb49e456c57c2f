//! The data exchanged with a Kaspa node, and the library's error type.

use vstd::prelude::*;

use crate::text::{push_signed_decimal, signed_decimal};

verus! {

/// The network a wallet or node belongs to.
#[derive(Debug, Clone, Copy, PartialEq, Eq, Structural)]
pub enum NetworkType {
    Mainnet,
    Testnet,
    Devnet,
    Simnet,
}

/// A block header; `parents` lists the hashes of the parent blocks.
#[derive(Debug, Clone, PartialEq, Eq)]
pub struct BlockHeader {
    pub version: u16,
    pub parents: Vec<String>,
    pub hash_merkle_root: String,
    pub timestamp: u64,
    pub bits: u32,
    pub nonce: u64,
    pub daa_score: u64,
    pub blue_score: u64,
}

/// What the node adds to a block it reports.
#[derive(Debug, Clone, PartialEq, Eq)]
pub struct BlockVerboseData {
    pub hash: String,
    pub blue_score: u64,
    pub selected_parent_hash: String,
    pub is_chain_block: bool,
}

/// A block of the DAG.
#[derive(Debug, Clone, PartialEq, Eq)]
pub struct Block {
    pub header: BlockHeader,
    pub transactions: Vec<Transaction>,
    pub verbose_data: Option<BlockVerboseData>,
}

/// A reference to an output of an earlier transaction.
#[derive(Debug, Clone, PartialEq, Eq)]
pub struct Outpoint {
    pub transaction_id: String,
    pub index: u32,
}

/// A transaction input.
#[derive(Debug, Clone, PartialEq, Eq)]
pub struct TransactionInput {
    pub previous_outpoint: Outpoint,
    pub signature_script: String,
    pub sequence: u64,
    pub sig_op_count: u8,
}

/// A locking script.
#[derive(Debug, Clone, PartialEq, Eq)]
pub struct ScriptPublicKey {
    pub version: u16,
    pub script_public_key: String,
}

/// What the node adds to a transaction output it reports.
#[derive(Debug, Clone, PartialEq, Eq)]
pub struct TransactionOutputVerboseData {
    pub script_public_key_type: String,
    pub script_public_key_address: String,
}

/// A transaction output.
#[derive(Debug, Clone, PartialEq, Eq)]
pub struct TransactionOutput {
    pub value: u64,
    pub script_public_key: ScriptPublicKey,
    pub verbose_data: Option<TransactionOutputVerboseData>,
}

/// What the node adds to a transaction it reports.
#[derive(Debug, Clone, PartialEq, Eq)]
pub struct TransactionVerboseData {
    pub transaction_id: String,
    pub hash: String,
    pub mass: u64,
    pub block_hash: String,
    pub block_time: u64,
}

/// A transaction.
#[derive(Debug, Clone, PartialEq, Eq)]
pub struct Transaction {
    pub version: u16,
    pub inputs: Vec<TransactionInput>,
    pub outputs: Vec<TransactionOutput>,
    pub lock_time: u64,
    pub subnetwork_id: String,
    pub gas: u64,
    pub payload: String,
    pub verbose_data: Option<TransactionVerboseData>,
}

/// A transaction waiting in the mempool, with the fee it pays.
#[derive(Debug, Clone, PartialEq, Eq)]
pub struct MempoolEntry {
    pub fee: u64,
    pub transaction: Transaction,
    pub is_orphan: bool,
}

/// An unspent output held by an address.
#[derive(Debug, Clone, PartialEq, Eq)]
pub struct UtxoEntry {
    pub amount: u64,
    pub script_public_key: ScriptPublicKey,
    pub block_daa_score: u64,
    pub is_coinbase: bool,
}

/// An unspent output, with where it is and who holds it.
#[derive(Debug, Clone, PartialEq, Eq)]
pub struct UtxosByAddressesEntry {
    pub address: String,
    pub outpoint: Outpoint,
    pub utxo_entry: UtxoEntry,
}

/// A notification that the selected chain of the DAG changed.
#[derive(Debug, Clone, PartialEq, Eq)]
pub struct VirtualChainChangedNotification {
    pub removed_chain_block_hashes: Vec<String>,
    pub added_chain_block_hashes: Vec<String>,
    pub accepted_transaction_ids: Vec<String>,
}

/// A notification that unspent outputs of watched addresses changed.
#[derive(Debug, Clone, PartialEq, Eq)]
pub struct UtxosChangedNotification {
    pub added: Vec<UtxosByAddressesEntry>,
    pub removed: Vec<UtxosByAddressesEntry>,
}

/// The errors of the library. The two that stem from a transport or a decoder
/// carry that error's message.
#[derive(Debug, Clone, PartialEq, Eq)]
pub enum KaspaError {
    HttpError(String),
    JsonError(String),
    RpcError { code: i32, message: String },
    InvalidResponse(String),
    ConnectionError(String),
    AuthenticationError,
    InvalidAddress(String),
    Custom(String),
}

/// The text that describes an error.
pub open spec fn error_message(e: KaspaError) -> Seq<char> {
    match e {
        KaspaError::HttpError(m) => "HTTP request failed: "@ + m@,
        KaspaError::JsonError(m) => "JSON serialization failed: "@ + m@,
        KaspaError::RpcError { code, message } => "RPC error: code="@ + signed_decimal(code as int)
            + ", message="@ + message@,
        KaspaError::InvalidResponse(m) => "Invalid response format: "@ + m@,
        KaspaError::ConnectionError(m) => "Connection failed: "@ + m@,
        KaspaError::AuthenticationError => "Authentication failed"@,
        KaspaError::InvalidAddress(m) => "Invalid address: "@ + m@,
        KaspaError::Custom(m) => m@,
    }
}

impl KaspaError {
    /// The text that describes the error.
    pub fn message(&self) -> (s: String)
        ensures
            s@ == error_message(*self),
    {
        match self {
            KaspaError::HttpError(m) => {
                let mut s = String::from_str("HTTP request failed: ");
                s.append(m.as_str());
                s
            },
            KaspaError::JsonError(m) => {
                let mut s = String::from_str("JSON serialization failed: ");
                s.append(m.as_str());
                s
            },
            KaspaError::RpcError { code, message } => {
                let mut s = String::from_str("RPC error: code=");
                push_signed_decimal(&mut s, *code as i64);
                s.append(", message=");
                s.append(message.as_str());
                s
            },
            KaspaError::InvalidResponse(m) => {
                let mut s = String::from_str("Invalid response format: ");
                s.append(m.as_str());
                s
            },
            KaspaError::ConnectionError(m) => {
                let mut s = String::from_str("Connection failed: ");
                s.append(m.as_str());
                s
            },
            KaspaError::AuthenticationError => String::from_str("Authentication failed"),
            KaspaError::InvalidAddress(m) => {
                let mut s = String::from_str("Invalid address: ");
                s.append(m.as_str());
                s
            },
            KaspaError::Custom(m) => m.clone(),
        }
    }
}

} // verus!
