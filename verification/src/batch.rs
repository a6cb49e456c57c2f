//! Batch requests: the caches that spare repeated block lookups, when they expire,
//! which hashes still need a request, and how addresses are grouped for balance
//! requests.

use vstd::prelude::*;

use crate::collections::{texts, StrMap};
use crate::types::{Block, Transaction, UtxoEntry};

verus! {

/// The number of addresses asked for in one balance request.
pub const BALANCE_CHUNK: usize = 50;

/// The caches of a batch processor, keyed by hash, transaction id and address.
pub struct BatchCaches {
    pub block_cache: StrMap<Block>,
    pub transaction_cache: StrMap<Transaction>,
    pub utxo_cache: StrMap<Vec<UtxoEntry>>,
}

/// A balance reported for an address.
#[derive(Debug, Clone)]
pub struct AddressBalance {
    pub address: String,
    pub balance: u64,
}

/// The texts among the first `n` of `hashes` that are (or, with `present` false,
/// are not) in `keys`, in order.
pub open spec fn hashes_where(hashes: Seq<Seq<char>>, keys: Set<Seq<char>>, present: bool, n: int) -> Seq<Seq<char>>
    decreases n,
{
    if n <= 0 {
        Seq::empty()
    } else if keys.contains(hashes[n - 1]) == present {
        hashes_where(hashes, keys, present, n - 1).push(hashes[n - 1])
    } else {
        hashes_where(hashes, keys, present, n - 1)
    }
}

/// `m` after recording the first `n` balances in order, a later one for the same
/// address replacing an earlier one.
pub open spec fn with_balances(m: Map<Seq<char>, u64>, entries: Seq<AddressBalance>, n: int) -> Map<Seq<char>, u64>
    decreases n,
{
    if n <= 0 {
        m
    } else {
        with_balances(m, entries, n - 1).insert(entries[n - 1].address@, entries[n - 1].balance)
    }
}

/// The `k`-th group of at most `BALANCE_CHUNK` consecutive addresses.
pub open spec fn chunk_of(addresses: Seq<String>, k: int) -> Seq<String> {
    let start = k * BALANCE_CHUNK;
    let end = if start + BALANCE_CHUNK <= addresses.len() { start + BALANCE_CHUNK } else { addresses.len() as int };
    addresses.subrange(start, end)
}

/// The number of groups `n` addresses fall into.
pub open spec fn chunk_count(n: nat) -> nat {
    (n + BALANCE_CHUNK - 1) as nat / BALANCE_CHUNK as nat
}

impl BatchCaches {
    /// Empty caches.
    pub fn new() -> (c: Self)
        ensures
            c.block_cache.view() == Map::<Seq<char>, Block>::empty(),
            c.transaction_cache.view() == Map::<Seq<char>, Transaction>::empty(),
            c.utxo_cache.view() == Map::<Seq<char>, Vec<UtxoEntry>>::empty(),
    {
        BatchCaches { block_cache: StrMap::new(), transaction_cache: StrMap::new(), utxo_cache: StrMap::new() }
    }

    /// Empties every cache when more than `ttl_nanos` have passed since the last
    /// cleanup (`elapsed_nanos`), and says whether it did.
    pub fn clean_if_stale(&mut self, elapsed_nanos: u128, ttl_nanos: u128) -> (cleaned: bool)
        ensures
            cleaned == (elapsed_nanos > ttl_nanos),
            cleaned ==> final(self).block_cache.view() == Map::<Seq<char>, Block>::empty()
                && final(self).transaction_cache.view() == Map::<Seq<char>, Transaction>::empty()
                && final(self).utxo_cache.view() == Map::<Seq<char>, Vec<UtxoEntry>>::empty(),
            !cleaned ==> final(self).block_cache.view() == old(self).block_cache.view()
                && final(self).transaction_cache.view() == old(self).transaction_cache.view()
                && final(self).utxo_cache.view() == old(self).utxo_cache.view(),
    {
        if elapsed_nanos > ttl_nanos {
            self.block_cache = StrMap::new();
            self.transaction_cache = StrMap::new();
            self.utxo_cache = StrMap::new();
            true
        } else {
            false
        }
    }

    /// The requested hashes whose blocks are cached, and those that must be fetched,
    /// each in the order requested.
    pub fn split_cached(&self, hashes: &[String]) -> (r: (Vec<String>, Vec<String>))
        ensures
            texts(r.0@) == hashes_where(texts(hashes@), self.block_cache.view().dom(), true, hashes@.len() as int),
            texts(r.1@) == hashes_where(texts(hashes@), self.block_cache.view().dom(), false, hashes@.len() as int),
    {
        let ghost h = texts(hashes@);
        let ghost keys = self.block_cache.view().dom();
        let mut cached: Vec<String> = Vec::new();
        let mut missing: Vec<String> = Vec::new();
        let mut i: usize = 0;
        while i < hashes.len()
            invariant
                h == texts(hashes@),
                keys == self.block_cache.view().dom(),
                i <= hashes@.len(),
                texts(cached@) == hashes_where(h, keys, true, i as int),
                texts(missing@) == hashes_where(h, keys, false, i as int),
            decreases hashes@.len() - i,
        {
            let ghost c0 = cached@;
            let ghost m0 = missing@;
            proof { assert(h[i as int] == hashes@[i as int]@); }
            if self.block_cache.contains_key(hashes[i].as_str()) {
                cached.push(hashes[i].clone());
                proof {
                    assert(cached@ == c0.push(hashes@[i as int]));
                    assert(texts(cached@) =~= texts(c0).push(h[i as int]));
                }
            } else {
                missing.push(hashes[i].clone());
                proof {
                    assert(missing@ == m0.push(hashes@[i as int]));
                    assert(texts(missing@) =~= texts(m0).push(h[i as int]));
                }
            }
            i = i + 1;
        }
        (cached, missing)
    }

    /// Caches a fetched block under the hash its verbose data reports, and gives that
    /// hash; a block without verbose data is not kept.
    pub fn cache_fetched(&mut self, block: Block) -> (r: Option<String>)
        ensures
            block.verbose_data is None ==> r is None && final(self).block_cache.view() == old(
                self,
            ).block_cache.view(),
            block.verbose_data matches Some(v) ==> (r matches Some(h) && h@ == v.hash@
                && final(self).block_cache.view() == old(self).block_cache.view().insert(v.hash@, block)),
            final(self).transaction_cache.view() == old(self).transaction_cache.view(),
            final(self).utxo_cache.view() == old(self).utxo_cache.view(),
    {
        let hash = match &block.verbose_data {
            Some(v) => v.hash.clone(),
            None => {
                return None;
            },
        };
        self.block_cache.insert(hash.as_str(), block);
        Some(hash)
    }
}

/// Records the balances in order, a later one for the same address replacing an
/// earlier one.
pub fn record_balances(balances: &mut StrMap<u64>, entries: &[AddressBalance])
    ensures
        final(balances).view() == with_balances(old(balances).view(), entries@, entries@.len() as int),
{
    let mut i: usize = 0;
    while i < entries.len()
        invariant
            i <= entries@.len(),
            balances.view() == with_balances(old(balances).view(), entries@, i as int),
        decreases entries@.len() - i,
    {
        balances.insert(entries[i].address.as_str(), entries[i].balance);
        i = i + 1;
    }
}

/// The addresses in groups of `BALANCE_CHUNK`, in order; the last group may be smaller.
pub fn address_chunks(addresses: &[String]) -> (r: Vec<Vec<String>>)
    ensures
        r@.len() == chunk_count(addresses@.len()),
        forall|k: int| 0 <= k < r@.len() ==> (#[trigger] r@[k])@ == chunk_of(addresses@, k),
{
    let n = addresses.len();
    let mut chunks: Vec<Vec<String>> = Vec::new();
    let mut start: usize = 0;
    while start < n
        invariant
            n == addresses@.len(),
            start <= n,
            start == (if chunks@.len() * BALANCE_CHUNK <= n { chunks@.len() * BALANCE_CHUNK } else { n as int }),
            chunks@.len() > 0 ==> (chunks@.len() - 1) * BALANCE_CHUNK < n,
            forall|k: int| 0 <= k < chunks@.len() ==> (#[trigger] chunks@[k])@ == chunk_of(addresses@, k),
        decreases n - start,
    {
        let end = if n - start > BALANCE_CHUNK { start + BALANCE_CHUNK } else { n };
        let mut chunk: Vec<String> = Vec::new();
        let mut j: usize = start;
        while j < end
            invariant
                start <= j <= end,
                end <= addresses@.len(),
                chunk@ == addresses@.subrange(start as int, j as int),
            decreases end - j,
        {
            chunk.push(addresses[j].clone());
            proof {
                assert(chunk@ =~= addresses@.subrange(start as int, j + 1));
            }
            j = j + 1;
        }
        let ghost k = chunks@.len() as int;
        proof {
            assert(chunk_of(addresses@, k) == addresses@.subrange(start as int, end as int));
        }
        chunks.push(chunk);
        start = end;
    }
    proof {
        let c = chunks@.len();
        assert(chunk_count(n as nat) == c) by (nonlinear_arith)
            requires
                chunk_count(n as nat) == (n + 49) as nat / 50,
                c * 50 <= n ==> n == c * 50,
                c > 0 ==> (c - 1) * 50 < n,
                c == 0 ==> n == 0,
        {
        }
    }
    chunks
}

} // verus!
