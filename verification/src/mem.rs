//! Mempool analytics: transaction ids, fee statistics, congestion, anomaly
//! detection, replacement and child-pays-for-parent detection, and a stress
//! simulation, over snapshots of the mempool.

use vstd::prelude::*;

use crate::collections::{text_set, texts, StrMap, StrSet};
use crate::dag::child_texts;
use crate::crypto::{seahash_hash, seahash_of};
use crate::order::{ascending_order, ascending_positions, as_ints, descending_order, descending_positions, values_at};
use crate::text::{decimal, hexadecimal, push_decimal, push_hexadecimal};
use std::collections::VecDeque;

use crate::types::{KaspaError, MempoolEntry, Transaction};

verus! {

#[verifier::external_type_specification]
#[verifier::external_body]
pub struct ExInstant(std::time::Instant);

/// The number of snapshots a mempool history keeps.
pub const MAX_SNAPSHOT_SIZE: usize = 100;

/// The mempool at one moment.
#[derive(Debug)]
pub struct MemPoolSnapshot {
    pub timestamp: std::time::Instant,
    pub total_transactions: usize,
    pub total_size: u64,
    pub total_fee: u64,
    pub entries: Vec<MempoolEntry>,
}

/// How congested the mempool is.
#[derive(Debug, Clone, Copy, PartialEq, Eq, Structural)]
pub enum CongestionLevel {
    Idle,
    Normal,
    High,
    SHigh,
}

/// Kinds of unusual transactions.
#[derive(Debug, Clone, Copy, PartialEq, Eq, Structural)]
pub enum AnomalyBehaviorType {
    HighValueSuddenMovement,
    PossibleWalletSweep,
    MixingPattern,
    DustSpam,
    FeeSpike,
    TimeLockExploitation,
}

/// A child transaction whose fee may pull its parent into a block.
#[derive(Debug, Clone)]
pub struct CpfpCandidate {
    pub parent_tx_id: String,
    pub child_tx_id: String,
    pub combined_fee: u64,
    pub fee_increase: u64,
}

/// The outcome of a stress simulation of the mempool.
#[derive(Debug, Clone)]
pub struct StressTestResult {
    pub initial_size: usize,
    pub final_size: usize,
    pub total_added: usize,
    pub total_dropped: usize,
    pub average_confirmation_secs: u64,
    pub congestion_level: CongestionLevel,
}

/// The text from which the id of a transaction without a reported id is hashed:
/// version, input count, output count, lock time and gas, joined by `-`.
pub open spec fn fingerprint(tx: Transaction) -> Seq<char> {
    decimal(tx.version as nat) + "-"@ + decimal(tx.inputs@.len()) + "-"@ + decimal(tx.outputs@.len()) + "-"@
        + decimal(tx.lock_time as nat) + "-"@ + decimal(tx.gas as nat)
}

/// The id of a mempool transaction: the id the node reported when it is not empty,
/// else `tx_` and the hexadecimal SeaHash of its fingerprint.
pub open spec fn transaction_id(entry: MempoolEntry) -> Seq<char> {
    match entry.transaction.verbose_data {
        Some(v) if v.transaction_id@.len() > 0 => v.transaction_id@,
        _ => "tx_"@ + hexadecimal(seahash_of(vstd::utf8::encode_utf8(fingerprint(entry.transaction))) as nat),
    }
}

/// The id of a mempool transaction.
pub fn get_transaction_id(entry: &MempoolEntry) -> (id: String)
    ensures
        id@ == transaction_id(*entry),
{
    match &entry.transaction.verbose_data {
        Some(v) => {
            if !v.transaction_id.as_str().is_empty() {
                return v.transaction_id.clone();
            }
        },
        None => {},
    }
    let tx = &entry.transaction;
    let mut data = String::new();
    push_decimal(&mut data, tx.version as u64);
    data.append("-");
    push_decimal(&mut data, tx.inputs.len() as u64);
    data.append("-");
    push_decimal(&mut data, tx.outputs.len() as u64);
    data.append("-");
    push_decimal(&mut data, tx.lock_time);
    data.append("-");
    push_decimal(&mut data, tx.gas);
    assert(data@ =~= fingerprint(*tx));
    let hash = seahash_hash(data.as_str().as_bytes());
    let mut id = String::from_str("tx_");
    push_hexadecimal(&mut id, hash);
    id
}

/// The fee bracket of a fee.
pub open spec fn fee_category(fee: u64) -> Seq<char> {
    if fee <= 100 {
        "0-100"@
    } else if fee <= 1000 {
        "101-1,000"@
    } else if fee <= 10000 {
        "1,001-10,000"@
    } else if fee <= 100000 {
        "10,001-100,000"@
    } else {
        "100,000+"@
    }
}

/// The fee bracket of a fee.
pub fn categorize_fee(fee: u64) -> (c: String)
    ensures
        c@ == fee_category(fee),
{
    if fee <= 100 {
        String::from_str("0-100")
    } else if fee <= 1000 {
        String::from_str("101-1,000")
    } else if fee <= 10000 {
        String::from_str("1,001-10,000")
    } else if fee <= 100000 {
        String::from_str("10,001-100,000")
    } else {
        String::from_str("100,000+")
    }
}

/// The congestion of a mempool of `count` transactions.
pub open spec fn congestion_of(count: nat) -> CongestionLevel {
    if count <= 1000 {
        CongestionLevel::Idle
    } else if count <= 5000 {
        CongestionLevel::Normal
    } else if count <= 20000 {
        CongestionLevel::High
    } else {
        CongestionLevel::SHigh
    }
}

/// The congestion of a mempool holding `entries`.
pub fn assess_congestion_level(entries: &[MempoolEntry]) -> (c: CongestionLevel)
    ensures
        c == congestion_of(entries@.len()),
{
    let count = entries.len();
    if count <= 1000 {
        CongestionLevel::Idle
    } else if count <= 5000 {
        CongestionLevel::Normal
    } else if count <= 20000 {
        CongestionLevel::High
    } else {
        CongestionLevel::SHigh
    }
}

/// The total value of the outputs of a transaction.
pub open spec fn output_total(tx: Transaction) -> nat {
    output_sum(tx.outputs@.map_values(|o: crate::types::TransactionOutput| o.value))
}

/// The sum of a sequence of values.
pub open spec fn output_sum(s: Seq<u64>) -> nat
    decreases s.len(),
{
    if s.len() == 0 {
        0
    } else {
        output_sum(s.drop_last()) + s.last() as nat
    }
}

proof fn lemma_output_sum_prefix(s: Seq<u64>, i: int)
    requires
        0 <= i <= s.len(),
    ensures
        output_sum(s.take(i)) <= output_sum(s),
    decreases s.len() - i,
{
    if i < s.len() {
        lemma_output_sum_prefix(s, i + 1);
        assert(s.take(i + 1).drop_last() =~= s.take(i));
    } else {
        assert(s.take(i) =~= s);
    }
}

/// Whether a transaction moves more than 1,000,000,000 in total.
pub fn is_high_value_sudden_movement(transaction: &Transaction) -> (r: bool)
    requires
        output_total(*transaction) <= u64::MAX,
    ensures
        r == (output_total(*transaction) > 1_000_000_000),
{
    let ghost values = transaction.outputs@.map_values(|o: crate::types::TransactionOutput| o.value);
    let mut total: u64 = 0;
    let mut i: usize = 0;
    while i < transaction.outputs.len()
        invariant
            values == transaction.outputs@.map_values(|o: crate::types::TransactionOutput| o.value),
            output_sum(values) <= u64::MAX,
            i <= transaction.outputs@.len(),
            total == output_sum(values.take(i as int)),
        decreases transaction.outputs@.len() - i,
    {
        proof {
            assert(values.take(i + 1).drop_last() =~= values.take(i as int));
            lemma_output_sum_prefix(values, i + 1);
        }
        total = total + transaction.outputs[i].value;
        i = i + 1;
    }
    assert(values.take(values.len() as int) =~= values);
    total > 1_000_000_000
}

/// Whether a transaction gathers more than ten inputs into at most two outputs.
pub fn is_possible_wallet_sweep(transaction: &Transaction) -> (r: bool)
    ensures
        r == (transaction.inputs@.len() > 10 && transaction.outputs@.len() <= 2),
{
    transaction.inputs.len() > 10 && transaction.outputs.len() <= 2
}

/// Whether a transaction has at least five outputs, all of the same positive value.
pub fn is_mixing_pattern(transaction: &Transaction) -> (r: bool)
    ensures
        r == (transaction.outputs@.len() >= 5 && transaction.outputs@[0].value > 0 && forall|i: int|
            0 <= i < transaction.outputs@.len() ==> #[trigger] transaction.outputs@[i].value
                == transaction.outputs@[0].value),
{
    if transaction.outputs.len() < 5 {
        return false;
    }
    let first_value = transaction.outputs[0].value;
    let mut i: usize = 0;
    while i < transaction.outputs.len()
        invariant
            transaction.outputs@.len() >= 5,
            first_value == transaction.outputs@[0].value,
            i <= transaction.outputs@.len(),
            forall|j: int| 0 <= j < i ==> #[trigger] transaction.outputs@[j].value == first_value,
        decreases transaction.outputs@.len() - i,
    {
        if transaction.outputs[i].value != first_value {
            return false;
        }
        i = i + 1;
    }
    first_value > 0
}

/// The number of outputs of a transaction worth less than 1000.
pub open spec fn dust_count(outputs: Seq<crate::types::TransactionOutput>) -> nat
    decreases outputs.len(),
{
    if outputs.len() == 0 {
        0
    } else {
        dust_count(outputs.drop_last()) + if outputs.last().value < 1000 {
            1nat
        } else {
            0nat
        }
    }
}

proof fn lemma_dust_count_bounded(outputs: Seq<crate::types::TransactionOutput>)
    ensures
        dust_count(outputs) <= outputs.len(),
    decreases outputs.len(),
{
    if outputs.len() > 0 {
        lemma_dust_count_bounded(outputs.drop_last());
    }
}

/// Whether a transaction has more than ten outputs, all worth less than 1000.
pub fn is_dust_spam(transaction: &Transaction) -> (r: bool)
    ensures
        r == (dust_count(transaction.outputs@) > 10 && dust_count(transaction.outputs@)
            == transaction.outputs@.len()),
{
    let outputs = &transaction.outputs;
    let mut count: usize = 0;
    let mut i: usize = 0;
    while i < outputs.len()
        invariant
            i <= outputs@.len(),
            count == dust_count(outputs@.take(i as int)),
            count <= i,
        decreases outputs@.len() - i,
    {
        proof {
            assert(outputs@.take(i + 1).drop_last() =~= outputs@.take(i as int));
        }
        if outputs[i].value < 1000 {
            count = count + 1;
        }
        i = i + 1;
    }
    assert(outputs@.take(outputs@.len() as int) =~= outputs@);
    count > 10 && count == outputs.len()
}

/// The ids of the outputs spent by the inputs of a transaction.
pub open spec fn spent_ids(tx: Transaction) -> Seq<Seq<char>> {
    tx.inputs@.map_values(|i: crate::types::TransactionInput| i.previous_outpoint.transaction_id@)
}

/// Whether two transactions spend outputs of a common transaction.
pub fn have_common_inputs(tx1: &Transaction, tx2: &Transaction) -> (r: bool)
    ensures
        r == exists|i: int, j: int| 0 <= i < tx1.inputs@.len() && 0 <= j < tx2.inputs@.len() && #[trigger] spent_ids(
            *tx1,
        )[i] == #[trigger] spent_ids(*tx2)[j],
{
    let mut i: usize = 0;
    while i < tx1.inputs.len()
        invariant
            i <= tx1.inputs@.len(),
            forall|a: int, b: int| 0 <= a < i && 0 <= b < tx2.inputs@.len() ==> #[trigger] spent_ids(*tx1)[a]
                != #[trigger] spent_ids(*tx2)[b],
        decreases tx1.inputs@.len() - i,
    {
        let mut j: usize = 0;
        while j < tx2.inputs.len()
            invariant
                i < tx1.inputs@.len(),
                j <= tx2.inputs@.len(),
                forall|a: int, b: int| 0 <= a < i && 0 <= b < tx2.inputs@.len() ==> #[trigger] spent_ids(*tx1)[a]
                    != #[trigger] spent_ids(*tx2)[b],
                forall|b: int| 0 <= b < j ==> spent_ids(*tx1)[i as int] != #[trigger] spent_ids(*tx2)[b],
            decreases tx2.inputs@.len() - j,
        {
            if crate::text::text_eq(
                tx1.inputs[i].previous_outpoint.transaction_id.as_str(),
                tx2.inputs[j].previous_outpoint.transaction_id.as_str(),
            ) {
                assert(spent_ids(*tx1)[i as int] == spent_ids(*tx2)[j as int]);
                return true;
            }
            j = j + 1;
        }
        i = i + 1;
    }
    false
}


/// The fees of mempool entries, in order.
pub open spec fn fees_of(entries: Seq<MempoolEntry>) -> Seq<u64> {
    entries.map_values(|e: MempoolEntry| e.fee)
}

/// Values in ascending order.
pub open spec fn sorted_values(v: Seq<u64>) -> Seq<u64> {
    values_at(v, ascending_order(v, v.len()))
}

/// The median of values as a fraction (numerator, denominator): the middle value
/// over 1, or the sum of the two middle values over 2; `None` for no values.
pub open spec fn median_fraction(v: Seq<u64>) -> Option<(nat, nat)> {
    if v.len() == 0 {
        None
    } else {
        let s = sorted_values(v);
        let mid = (v.len() / 2) as int;
        if v.len() % 2 == 0 {
            Some(((s[mid - 1] + s[mid]) as nat, 2nat))
        } else {
            Some((s[mid] as nat, 1nat))
        }
    }
}

/// Whether the two middle values of an even number of values add up within `u64`.
pub open spec fn median_fits(v: Seq<u64>) -> bool {
    v.len() > 0 && v.len() % 2 == 0 ==> sorted_values(v)[v.len() / 2 - 1] + sorted_values(v)[(v.len() / 2) as int]
        <= u64::MAX
}

/// A copy of `values` in ascending order.
pub fn sort_ascending(values: &[u64]) -> (s: Vec<u64>)
    ensures
        s@ == sorted_values(values@),
        s@.len() == values@.len(),
{
    let order = ascending_positions(values);
    let n = values.len();
    let mut s: Vec<u64> = Vec::new();
    let mut i: usize = 0;
    while i < n
        invariant
            n == values@.len(),
            as_ints(order@) == ascending_order(values@, n as nat),
            crate::order::is_permutation_of(as_ints(order@), n as nat),
            i <= n,
            s@.len() == i,
            sorted_values(values@).len() == n,
            s@ == sorted_values(values@).take(i as int),
        decreases n - i,
    {
        proof {
            assert(as_ints(order@)[i as int] == order@[i as int] as int);
            assert(sorted_values(values@).take(i + 1) =~= sorted_values(values@).take(i as int).push(
                values@[order@[i as int] as int],
            ));
        }
        s.push(values[order[i]]);
        i = i + 1;
    }
    assert(sorted_values(values@).take(n as int) =~= sorted_values(values@));
    s
}

/// The median of values as a fraction (numerator, denominator).
pub fn median_parts(values: &[u64]) -> (r: Option<(u64, u64)>)
    requires
        median_fits(values@),
    ensures
        match r {
            None => median_fraction(values@) is None,
            Some((a, b)) => median_fraction(values@) == Some((a as nat, b as nat)),
        },
{
    if values.len() == 0 {
        return None;
    }
    let sorted = sort_ascending(values);
    let mid = sorted.len() / 2;
    if sorted.len() % 2 == 0 {
        Some((sorted[mid - 1] + sorted[mid], 2))
    } else {
        Some((sorted[mid], 1))
    }
}

/// The fee recommended from a snapshot: the fee three quarters of the way up the
/// sorted fees (1000 when there are none).
pub open spec fn recommended_fee(entries: Seq<MempoolEntry>) -> u64 {
    let fees = fees_of(entries);
    if fees.len() == 0 {
        1000
    } else {
        let index = (3 * fees.len()) / 4;
        sorted_values(fees)[if index < fees.len() - 1 { index as int } else { fees.len() - 1 }]
    }
}

/// The fees of a list of entries.
pub fn entry_fees(entries: &[MempoolEntry]) -> (fees: Vec<u64>)
    ensures
        fees@ == fees_of(entries@),
{
    let mut fees: Vec<u64> = Vec::new();
    let mut i: usize = 0;
    while i < entries.len()
        invariant
            i <= entries@.len(),
            fees@ == fees_of(entries@).take(i as int),
        decreases entries@.len() - i,
    {
        fees.push(entries[i].fee);
        assert(fees_of(entries@).take(i + 1) =~= fees_of(entries@).take(i as int).push(entries@[i as int].fee));
        i = i + 1;
    }
    assert(fees_of(entries@).take(entries@.len() as int) =~= fees_of(entries@));
    fees
}

/// The fee recommended from a snapshot.
pub fn cal_recommended_fee(snapshot: &MemPoolSnapshot) -> (fee: u64)
    ensures
        fee == recommended_fee(snapshot.entries@),
{
    let fees = entry_fees(snapshot.entries.as_slice());
    if fees.len() == 0 {
        return 1000;
    }
    let sorted = sort_ascending(fees.as_slice());
    let n = sorted.len();
    let index = n / 4 * 3 + (n % 4) * 3 / 4;
    assert(index == (3 * n) / 4);
    let last = n - 1;
    sorted[if index < last { index } else { last }]
}

/// The confirmation time, in seconds, expected at each fee level: none for an
/// empty mempool, else one hour, ten minutes, two minutes and thirty seconds for
/// `low`, `medium`, `high` and `very_high`.
pub fn estimate_confirmation_times(entries: &[MempoolEntry]) -> (m: StrMap<u64>)
    ensures
        entries@.len() == 0 ==> m.view() == Map::<Seq<char>, u64>::empty(),
        entries@.len() > 0 ==> m.view() == map![
            "low"@ => 3600u64, "medium"@ => 600u64, "high"@ => 120u64, "very_high"@ => 30u64
        ],
{
    let mut estimates: StrMap<u64> = StrMap::new();
    if entries.len() == 0 {
        return estimates;
    }
    estimates.insert("low", 60 * 60);
    estimates.insert("medium", 10 * 60);
    estimates.insert("high", 2 * 60);
    estimates.insert("very_high", 30);
    assert(estimates.view() =~= map![
        "low"@ => 3600u64, "medium"@ => 600u64, "high"@ => 120u64, "very_high"@ => 30u64
    ]);
    estimates
}


/// A transaction of the latest snapshot that spends an output also spent by a
/// transaction of the snapshot before, and pays more: positions in the two
/// snapshots and the fee increase.
#[derive(Debug, Clone)]
pub struct ReplaceByFeeMatch {
    pub current_index: usize,
    pub previous_index: usize,
    pub fee_increase: u64,
}

/// Whether two transactions spend outputs of a common transaction.
pub open spec fn shares_input(a: Transaction, b: Transaction) -> bool {
    exists|i: int, j: int| 0 <= i < a.inputs@.len() && 0 <= j < b.inputs@.len() && #[trigger] spent_ids(a)[i]
        == #[trigger] spent_ids(b)[j]
}

/// Whether `current` looks like a fee-raising replacement of `previous`.
pub open spec fn replaces_by_fee(current: MempoolEntry, previous: MempoolEntry) -> bool {
    shares_input(current.transaction, previous.transaction) && current.fee > previous.fee
}

/// The replacements of the first `k` previous entries by the current entry at `ci`.
pub open spec fn rbf_row(current: MempoolEntry, ci: int, previous: Seq<MempoolEntry>, k: int) -> Seq<
    ReplaceByFeeMatch,
>
    decreases k,
{
    if k <= 0 {
        Seq::empty()
    } else {
        rbf_row(current, ci, previous, k - 1) + if replaces_by_fee(current, previous[k - 1]) {
            seq![ReplaceByFeeMatch {
                current_index: ci as usize,
                previous_index: (k - 1) as usize,
                fee_increase: (current.fee - previous[k - 1].fee) as u64,
            }]
        } else {
            Seq::empty()
        }
    }
}

/// All replacements among the first `n` current entries, current entry by current
/// entry and, within one, previous entry by previous entry.
pub open spec fn rbf_matches(current: Seq<MempoolEntry>, previous: Seq<MempoolEntry>, n: int) -> Seq<
    ReplaceByFeeMatch,
>
    decreases n,
{
    if n <= 0 {
        Seq::empty()
    } else {
        rbf_matches(current, previous, n - 1) + rbf_row(current[n - 1], n - 1, previous, previous.len() as int)
    }
}

/// Whether a fee is more than ten times the median fee of the latest snapshot (a
/// fee above zero when that snapshot is empty); never when there is no snapshot.
pub open spec fn fee_spike(snapshots: Seq<MemPoolSnapshot>, fee: u64) -> bool {
    if snapshots.len() == 0 {
        false
    } else {
        match median_fraction(fees_of(snapshots.last().entries@)) {
            None => fee > 0,
            Some((num, den)) => fee * den > 10 * num,
        }
    }
}

/// Whether some input of `a` and some input of `b` spend outputs of the same transaction.
pub open spec fn spend_common_output(a: Transaction, b: Transaction) -> bool {
    exists|i: int, j: int|
        0 <= i < a.inputs@.len() && 0 <= j < b.inputs@.len() && (#[trigger] a.inputs@[i]).previous_outpoint.transaction_id@
            == (#[trigger] b.inputs@[j]).previous_outpoint.transaction_id@
}

/// A replacement by fee is a current transaction that spends an output of the same
/// transaction as a previous one, and pays strictly more.
proof fn lemma_replaces_by_fee_direct(c: MempoolEntry, p: MempoolEntry)
    ensures
        replaces_by_fee(c, p) <==> (c.fee > p.fee && spend_common_output(c.transaction, p.transaction)),
{
    if spend_common_output(c.transaction, p.transaction) {
        let (i, j) = choose|i: int, j: int|
            0 <= i < c.transaction.inputs@.len() && 0 <= j < p.transaction.inputs@.len() && (#[trigger] c.transaction.inputs@[i]).previous_outpoint.transaction_id@
                == (#[trigger] p.transaction.inputs@[j]).previous_outpoint.transaction_id@;
        assert(spent_ids(c.transaction)[i] == spent_ids(p.transaction)[j]);
    }
    if shares_input(c.transaction, p.transaction) {
        let (i, j) = choose|i: int, j: int|
            0 <= i < c.transaction.inputs@.len() && 0 <= j < p.transaction.inputs@.len() && #[trigger] spent_ids(
                c.transaction,
            )[i] == #[trigger] spent_ids(p.transaction)[j];
        assert(c.transaction.inputs@[i].previous_outpoint.transaction_id@ == p.transaction.inputs@[j].previous_outpoint.transaction_id@);
    }
}

/// The replacements of one current entry are exactly the previous entries it replaces.
proof fn lemma_rbf_row_exact(current: MempoolEntry, ci: int, previous: Seq<MempoolEntry>, k: int)
    requires
        0 <= ci <= usize::MAX,
        0 <= k <= previous.len() <= usize::MAX,
    ensures
        forall|j: int| 0 <= j < rbf_row(current, ci, previous, k).len() ==> {
            let m = #[trigger] rbf_row(current, ci, previous, k)[j];
            &&& m.current_index == ci
            &&& m.previous_index < k
            &&& replaces_by_fee(current, previous[m.previous_index as int])
        },
        forall|pi: int| 0 <= pi < k && #[trigger] replaces_by_fee(current, previous[pi]) ==> exists|j: int|
            0 <= j < rbf_row(current, ci, previous, k).len() && (#[trigger] rbf_row(current, ci, previous, k)[j]).previous_index
                == pi,
    decreases k,
{
    if k > 0 {
        lemma_rbf_row_exact(current, ci, previous, k - 1);
        let before = rbf_row(current, ci, previous, k - 1);
        let row = rbf_row(current, ci, previous, k);
        assert forall|j: int| 0 <= j < row.len() implies {
            let m = #[trigger] row[j];
            &&& m.current_index == ci
            &&& m.previous_index < k
            &&& replaces_by_fee(current, previous[m.previous_index as int])
        } by {
            if j < before.len() {
                assert(row[j] == before[j]);
            }
        }
        assert forall|pi: int| 0 <= pi < k && #[trigger] replaces_by_fee(current, previous[pi]) implies exists|j: int|
            0 <= j < row.len() && (#[trigger] row[j]).previous_index == pi by {
            if pi < k - 1 {
                let j = choose|j: int| 0 <= j < before.len() && (#[trigger] before[j]).previous_index == pi;
                assert(row[j] == before[j]);
            } else {
                assert(row[before.len() as int].previous_index == pi);
            }
        }
    }
}

/// The replacement-by-fee signals between two snapshots are exactly the pairs of a
/// current and a previous transaction that spend an output of the same transaction,
/// the current one paying strictly more; each reports the fee increase.
pub proof fn lemma_rbf_matches_exact(current: Seq<MempoolEntry>, previous: Seq<MempoolEntry>, n: int)
    requires
        0 <= n <= current.len() <= usize::MAX,
        previous.len() <= usize::MAX,
    ensures
        forall|j: int| 0 <= j < rbf_matches(current, previous, n).len() ==> {
            let m = #[trigger] rbf_matches(current, previous, n)[j];
            let c = current[m.current_index as int];
            let p = previous[m.previous_index as int];
            &&& m.current_index < n
            &&& m.previous_index < previous.len()
            &&& c.fee > p.fee
            &&& spend_common_output(c.transaction, p.transaction)
            &&& m.fee_increase == c.fee - p.fee
        },
        forall|ci: int, pi: int|
            0 <= ci < n && 0 <= pi < previous.len() && current[ci].fee > previous[pi].fee && #[trigger] spend_common_output(
                current[ci].transaction,
                #[trigger] previous[pi].transaction,
            ) ==> exists|j: int|
                0 <= j < rbf_matches(current, previous, n).len() && (#[trigger] rbf_matches(current, previous, n)[j]).current_index
                    == ci && rbf_matches(current, previous, n)[j].previous_index == pi,
    decreases n,
{
    lemma_rbf_indices(current, previous, n);
    if n > 0 {
        lemma_rbf_matches_exact(current, previous, n - 1);
        lemma_rbf_row_exact(current[n - 1], n - 1, previous, previous.len() as int);
        let before = rbf_matches(current, previous, n - 1);
        let row = rbf_row(current[n - 1], n - 1, previous, previous.len() as int);
        let all = rbf_matches(current, previous, n);
        assert(all == before + row);
        assert forall|j: int| 0 <= j < all.len() implies {
            let m = #[trigger] all[j];
            let c = current[m.current_index as int];
            let p = previous[m.previous_index as int];
            &&& m.current_index < n
            &&& m.previous_index < previous.len()
            &&& c.fee > p.fee
            &&& spend_common_output(c.transaction, p.transaction)
            &&& m.fee_increase == c.fee - p.fee
        } by {
            let m = all[j];
            if j < before.len() {
                assert(all[j] == before[j]);
            } else {
                assert(all[j] == row[j - before.len()]);
                lemma_replaces_by_fee_direct(current[n - 1], previous[m.previous_index as int]);
            }
        }
        assert forall|ci: int, pi: int|
            0 <= ci < n && 0 <= pi < previous.len() && current[ci].fee > previous[pi].fee && #[trigger] spend_common_output(
                current[ci].transaction,
                #[trigger] previous[pi].transaction,
            ) implies exists|j: int|
                0 <= j < all.len() && (#[trigger] all[j]).current_index == ci && all[j].previous_index == pi by {
            if ci < n - 1 {
                let j = choose|j: int|
                    0 <= j < before.len() && (#[trigger] before[j]).current_index == ci && before[j].previous_index == pi;
                assert(all[j] == before[j]);
            } else {
                lemma_replaces_by_fee_direct(current[n - 1], previous[pi]);
                assert(replaces_by_fee(current[n - 1], previous[pi]));
                let j = choose|j: int| 0 <= j < row.len() && (#[trigger] row[j]).previous_index == pi;
                assert(all[before.len() + j] == row[j]);
                assert(row[j].current_index == n - 1);
            }
        }
    }
}

/// A replacement by fee named by its two transactions: the id of the replaced
/// transaction and of the replacing one, the fee increase, and the replaced fee.
#[derive(Debug, Clone)]
pub struct ReplaceByFee {
    pub original_tx_id: String,
    pub replacement_tx_id: String,
    pub fee_increase: u64,
    pub original_fee: u64,
}

/// The positions of a row of replacements lie within the entries.
proof fn lemma_rbf_row_indices(current: MempoolEntry, ci: int, previous: Seq<MempoolEntry>, k: int)
    requires
        0 <= ci <= usize::MAX,
        k <= previous.len() <= usize::MAX,
    ensures
        forall|j: int| 0 <= j < rbf_row(current, ci, previous, k).len() ==> {
            let m = #[trigger] rbf_row(current, ci, previous, k)[j];
            &&& m.current_index == ci
            &&& m.previous_index < k
            &&& m.fee_increase == current.fee - previous[m.previous_index as int].fee
        },
    decreases k,
{
    if k > 0 {
        lemma_rbf_row_indices(current, ci, previous, k - 1);
        let before = rbf_row(current, ci, previous, k - 1);
        assert forall|j: int| 0 <= j < rbf_row(current, ci, previous, k).len() implies {
            let m = #[trigger] rbf_row(current, ci, previous, k)[j];
            &&& m.current_index == ci
            &&& m.previous_index < k
            &&& m.fee_increase == current.fee - previous[m.previous_index as int].fee
        } by {
            if j < before.len() {
                assert(rbf_row(current, ci, previous, k)[j] == before[j]);
            } else {
                assert(replaces_by_fee(current, previous[k - 1]));
                assert(rbf_row(current, ci, previous, k)[j] == ReplaceByFeeMatch {
                    current_index: ci as usize,
                    previous_index: (k - 1) as usize,
                    fee_increase: (current.fee - previous[k - 1].fee) as u64,
                });
            }
        }
    }
}

/// The positions of all replacements lie within the two snapshots' entries.
proof fn lemma_rbf_indices(current: Seq<MempoolEntry>, previous: Seq<MempoolEntry>, n: int)
    requires
        n <= current.len() <= usize::MAX,
        previous.len() <= usize::MAX,
    ensures
        forall|j: int| 0 <= j < rbf_matches(current, previous, n).len() ==> {
            let m = #[trigger] rbf_matches(current, previous, n)[j];
            &&& m.current_index < n
            &&& m.previous_index < previous.len()
            &&& m.fee_increase == current[m.current_index as int].fee - previous[m.previous_index as int].fee
        },
    decreases n,
{
    if n > 0 {
        lemma_rbf_indices(current, previous, n - 1);
        lemma_rbf_row_indices(current[n - 1], n - 1, previous, previous.len() as int);
        let before = rbf_matches(current, previous, n - 1);
        let row = rbf_row(current[n - 1], n - 1, previous, previous.len() as int);
        assert forall|j: int| 0 <= j < rbf_matches(current, previous, n).len() implies {
            let m = #[trigger] rbf_matches(current, previous, n)[j];
            &&& m.current_index < n
            &&& m.previous_index < previous.len()
            &&& m.fee_increase == current[m.current_index as int].fee - previous[m.previous_index as int].fee
        } by {
            if j < before.len() {
                assert(rbf_matches(current, previous, n)[j] == before[j]);
            } else {
                assert(rbf_matches(current, previous, n)[j] == row[j - before.len()]);
            }
        }
    }
}

/// The last snapshots of the mempool, oldest first, at most `max_history_size` of them.
pub struct MempoolHistory {
    history: VecDeque<MemPoolSnapshot>,
    max_history_size: usize,
}

impl MempoolHistory {
    #[verifier::type_invariant]
    spec fn bounded(self) -> bool {
        &&& self.history@.len() <= self.max_history_size
        &&& self.max_history_size > 0
    }

    /// The snapshots held, oldest first.
    pub closed spec fn snapshots(self) -> Seq<MemPoolSnapshot> {
        self.history@
    }

    /// The number of snapshots kept.
    pub closed spec fn max_size(self) -> nat {
        self.max_history_size as nat
    }

    /// An empty history that keeps `MAX_SNAPSHOT_SIZE` snapshots.
    pub fn new() -> (h: Self)
        ensures
            h.snapshots() == Seq::<MemPoolSnapshot>::empty(),
            h.max_size() == MAX_SNAPSHOT_SIZE,
    {
        MempoolHistory { history: VecDeque::new(), max_history_size: MAX_SNAPSHOT_SIZE }
    }

    /// The number of snapshots held.
    pub fn len(&self) -> (n: usize)
        ensures
            n == self.snapshots().len(),
            n <= self.max_size(),
    {
        proof { use_type_invariant(self); }
        self.history.len()
    }

    /// The `i`-th snapshot, oldest first.
    pub fn snapshot_at(&self, i: usize) -> (s: &MemPoolSnapshot)
        requires
            i < self.snapshots().len(),
        ensures
            *s == self.snapshots()[i as int],
    {
        &self.history[i]
    }

    /// Appends a snapshot, dropping the oldest when more than the limit are held.
    pub fn add_snapshot(&mut self, snapshot: MemPoolSnapshot)
        ensures
            final(self).max_size() == old(self).max_size(),
            old(self).snapshots().len() + 1 > old(self).max_size() ==> final(self).snapshots() == old(
                self,
            ).snapshots().push(snapshot).drop_first(),
            old(self).snapshots().len() + 1 <= old(self).max_size() ==> final(self).snapshots() == old(
                self,
            ).snapshots().push(snapshot),
            final(self).snapshots().len() <= final(self).max_size(),
    {
        proof { use_type_invariant(&*self); }
        let mut history: VecDeque<MemPoolSnapshot> = VecDeque::new();
        std::mem::swap(&mut history, &mut self.history);
        history.push_back(snapshot);
        if history.len() > self.max_history_size {
            history.pop_front();
            assert(history@ =~= old(self).snapshots().push(snapshot).drop_first());
        }
        self.history = history;
    }

    /// Whether an entry's fee is more than ten times the median fee of the latest snapshot.
    pub fn is_fee_spike(&self, entry: &MempoolEntry) -> (r: bool)
        requires
            self.snapshots().len() > 0 ==> median_fits(fees_of(self.snapshots().last().entries@)),
        ensures
            r == fee_spike(self.snapshots(), entry.fee),
    {
        if self.history.len() == 0 {
            return false;
        }
        let latest = &self.history[self.history.len() - 1];
        assert(*latest == self.snapshots().last());
        let fees = entry_fees(latest.entries.as_slice());
        match median_parts(fees.as_slice()) {
            None => entry.fee > 0,
            Some((num, den)) => {
                let scaled: u128 = if den == 2 { 2 * (entry.fee as u128) } else { entry.fee as u128 };
                proof {
                    assert(den == 1 || den == 2);
                    if den == 2 {
                        assert(entry.fee * den == 2 * entry.fee);
                    } else {
                        assert(entry.fee * den == entry.fee);
                    }
                }
                scaled > 10 * (num as u128)
            },
        }
    }

    /// The fee-raising replacements between the two latest snapshots; none with
    /// fewer than two snapshots.
    pub fn detect_rbf_signals(&self) -> (r: Vec<ReplaceByFeeMatch>)
        ensures
            self.snapshots().len() < 2 ==> r@ == Seq::<ReplaceByFeeMatch>::empty(),
            self.snapshots().len() >= 2 ==> r@ == rbf_matches(
                self.snapshots().last().entries@,
                self.snapshots()[self.snapshots().len() - 2].entries@,
                self.snapshots().last().entries@.len() as int,
            ),
    {
        let mut signals: Vec<ReplaceByFeeMatch> = Vec::new();
        let n = self.history.len();
        if n < 2 {
            return signals;
        }
        let current = &self.history[n - 1];
        let previous = &self.history[n - 2];
        let cur = &current.entries;
        let prev = &previous.entries;
        let mut ci: usize = 0;
        while ci < cur.len()
            invariant
                ci <= cur@.len(),
                signals@ == rbf_matches(cur@, prev@, ci as int),
            decreases cur@.len() - ci,
        {
            let c = &cur[ci];
            let ghost before = signals@;
            let mut pi: usize = 0;
            while pi < prev.len()
                invariant
                    ci < cur@.len(),
                    *c == cur@[ci as int],
                    pi <= prev@.len(),
                    signals@ == before + rbf_row(*c, ci as int, prev@, pi as int),
                decreases prev@.len() - pi,
            {
                let p = &prev[pi];
                if have_common_inputs(&c.transaction, &p.transaction) && c.fee > p.fee {
                    signals.push(
                        ReplaceByFeeMatch { current_index: ci, previous_index: pi, fee_increase: c.fee - p.fee },
                    );
                }
                proof {
                    assert(signals@ =~= before + rbf_row(*c, ci as int, prev@, pi + 1));
                }
                pi = pi + 1;
            }
            assert(signals@ =~= rbf_matches(cur@, prev@, ci + 1));
            ci = ci + 1;
        }
        signals
    }

    /// The fee-raising replacements between the two latest snapshots, by id: for each
    /// match of `detect_rbf_signals`, in order, the ids of the replaced and the
    /// replacing transaction, the fee increase and the replaced fee.
    pub fn replace_by_fee_signals(&self) -> (r: Vec<ReplaceByFee>)
        ensures
            self.snapshots().len() < 2 ==> r@.len() == 0,
            self.snapshots().len() >= 2 ==> ({
                let cur = self.snapshots().last().entries@;
                let prev = self.snapshots()[self.snapshots().len() - 2].entries@;
                let ms = rbf_matches(cur, prev, cur.len() as int);
                &&& r@.len() == ms.len()
                &&& forall|j: int| 0 <= j < r@.len() ==> {
                    let m = ms[j];
                    &&& (#[trigger] r@[j]).original_tx_id@ == transaction_id(prev[m.previous_index as int])
                    &&& r@[j].replacement_tx_id@ == transaction_id(cur[m.current_index as int])
                    &&& r@[j].fee_increase == m.fee_increase
                    &&& r@[j].original_fee == prev[m.previous_index as int].fee
                }
            }),
    {
        let matches = self.detect_rbf_signals();
        let mut signals: Vec<ReplaceByFee> = Vec::new();
        let n = self.history.len();
        if n < 2 {
            return signals;
        }
        let cur = &self.history[n - 1].entries;
        let prev = &self.history[n - 2].entries;
        let cur_len = cur.len();
        let prev_len = prev.len();
        proof {
            assert(prev@.len() == prev_len);
            lemma_rbf_indices(cur@, prev@, cur_len as int);
        }
        let mut j: usize = 0;
        while j < matches.len()
            invariant
                cur@ == self.snapshots().last().entries@,
                prev@ == self.snapshots()[self.snapshots().len() - 2].entries@,
                matches@ == rbf_matches(cur@, prev@, cur@.len() as int),
                forall|q: int| 0 <= q < matches@.len() ==> {
                    let m = #[trigger] matches@[q];
                    &&& m.current_index < cur@.len()
                    &&& m.previous_index < prev@.len()
                },
                j <= matches@.len(),
                signals@.len() == j,
                forall|q: int| 0 <= q < j ==> {
                    let m = matches@[q];
                    &&& (#[trigger] signals@[q]).original_tx_id@ == transaction_id(prev[m.previous_index as int])
                    &&& signals@[q].replacement_tx_id@ == transaction_id(cur[m.current_index as int])
                    &&& signals@[q].fee_increase == m.fee_increase
                    &&& signals@[q].original_fee == prev[m.previous_index as int].fee
                },
            decreases matches@.len() - j,
        {
            let m = &matches[j];
            assert(m.current_index < cur@.len() && m.previous_index < prev@.len());
            let old_entry = &prev[m.previous_index];
            signals.push(
                ReplaceByFee {
                    original_tx_id: get_transaction_id(old_entry),
                    replacement_tx_id: get_transaction_id(&cur[m.current_index]),
                    fee_increase: m.fee_increase,
                    original_fee: old_entry.fee,
                },
            );
            j = j + 1;
        }
        signals
    }

    /// The latest snapshot, from which a prediction starts; an error with fewer
    /// than five snapshots.
    pub fn prediction_basis(&self) -> (r: Result<&MemPoolSnapshot, KaspaError>)
        ensures
            self.snapshots().len() < 5 ==> (r matches Err(e) && e matches KaspaError::Custom(m) && m@
                == "Not enough data"@),
            self.snapshots().len() >= 5 ==> (r matches Ok(s) && *s == self.snapshots().last()),
    {
        if self.history.len() < 5 {
            return Err(KaspaError::Custom(String::from_str("Not enough data")));
        }
        Ok(&self.history[self.history.len() - 1])
    }
}


/// The size the mempool is taken to occupy: 100 per output.
pub open spec fn size_total(entries: Seq<MempoolEntry>) -> nat
    decreases entries.len(),
{
    if entries.len() == 0 {
        0
    } else {
        size_total(entries.drop_last()) + 100 * entries.last().transaction.outputs@.len()
    }
}

/// The sum of the fees of entries.
pub open spec fn fee_total(entries: Seq<MempoolEntry>) -> nat
    decreases entries.len(),
{
    if entries.len() == 0 {
        0
    } else {
        fee_total(entries.drop_last()) + entries.last().fee as nat
    }
}

proof fn lemma_size_total_prefix(entries: Seq<MempoolEntry>, i: int)
    requires
        0 <= i <= entries.len(),
    ensures
        size_total(entries.take(i)) <= size_total(entries),
    decreases entries.len() - i,
{
    if i < entries.len() {
        lemma_size_total_prefix(entries, i + 1);
        assert(entries.take(i + 1).drop_last() =~= entries.take(i));
    } else {
        assert(entries.take(i) =~= entries);
    }
}

proof fn lemma_fee_total_prefix(entries: Seq<MempoolEntry>, i: int)
    requires
        0 <= i <= entries.len(),
    ensures
        fee_total(entries.take(i)) <= fee_total(entries),
    decreases entries.len() - i,
{
    if i < entries.len() {
        lemma_fee_total_prefix(entries, i + 1);
        assert(entries.take(i + 1).drop_last() =~= entries.take(i));
    } else {
        assert(entries.take(i) =~= entries);
    }
}

/// The size the mempool is taken to occupy: 100 per output.
pub fn cal_total_size(entries: &[MempoolEntry]) -> (size: u64)
    requires
        size_total(entries@) <= usize::MAX,
    ensures
        size == size_total(entries@),
{
    let mut total: usize = 0;
    let mut i: usize = 0;
    while i < entries.len()
        invariant
            i <= entries@.len(),
            size_total(entries@) <= usize::MAX,
            total == size_total(entries@.take(i as int)),
        decreases entries@.len() - i,
    {
        proof {
            assert(entries@.take(i + 1).drop_last() =~= entries@.take(i as int));
            lemma_size_total_prefix(entries@, i + 1);
        }
        total = total + entries[i].transaction.outputs.len() * 100;
        i = i + 1;
    }
    assert(entries@.take(entries@.len() as int) =~= entries@);
    total as u64
}

/// The sum of the fees of entries.
pub fn cal_total_fee(entries: &[MempoolEntry]) -> (fee: u64)
    requires
        fee_total(entries@) <= u64::MAX,
    ensures
        fee == fee_total(entries@),
{
    let mut total: u64 = 0;
    let mut i: usize = 0;
    while i < entries.len()
        invariant
            i <= entries@.len(),
            fee_total(entries@) <= u64::MAX,
            total == fee_total(entries@.take(i as int)),
        decreases entries@.len() - i,
    {
        proof {
            assert(entries@.take(i + 1).drop_last() =~= entries@.take(i as int));
            lemma_fee_total_prefix(entries@, i + 1);
        }
        total = total + entries[i].fee;
        i = i + 1;
    }
    assert(entries@.take(entries@.len() as int) =~= entries@);
    total
}

/// The volume held by an address in a volume map, 0 when it has none.
pub open spec fn volume_in(m: Map<Seq<char>, u64>, a: Seq<char>) -> nat {
    if m.contains_key(a) {
        m[a] as nat
    } else {
        0
    }
}

/// The volumes after adding the value of each output that names an address.
pub open spec fn volumes_after(m: Map<Seq<char>, u64>, outputs: Seq<crate::types::TransactionOutput>) -> Map<
    Seq<char>,
    u64,
>
    decreases outputs.len(),
{
    if outputs.len() == 0 {
        m
    } else {
        let before = volumes_after(m, outputs.drop_last());
        match outputs.last().verbose_data {
            Some(v) => before.insert(
                v.script_public_key_address@,
                (volume_in(before, v.script_public_key_address@) + outputs.last().value) as u64,
            ),
            None => before,
        }
    }
}

/// Whether adding the outputs' values one after the other stays within `u64`.
pub open spec fn volumes_fit(m: Map<Seq<char>, u64>, outputs: Seq<crate::types::TransactionOutput>) -> bool
    decreases outputs.len(),
{
    if outputs.len() == 0 {
        true
    } else {
        &&& volumes_fit(m, outputs.drop_last())
        &&& match outputs.last().verbose_data {
            Some(v) => volume_in(volumes_after(m, outputs.drop_last()), v.script_public_key_address@)
                + outputs.last().value <= u64::MAX,
            None => true,
        }
    }
}

/// Adds the value of each output of a transaction to the volume of the address it
/// names; outputs that name no address are skipped.
pub fn analyze_transaction_io(transaction: &Transaction, address_volumes: &mut StrMap<u64>)
    requires
        volumes_fit(old(address_volumes).view(), transaction.outputs@),
    ensures
        final(address_volumes).view() == volumes_after(old(address_volumes).view(), transaction.outputs@),
{
    let outputs = &transaction.outputs;
    let mut i: usize = 0;
    while i < outputs.len()
        invariant
            i <= outputs@.len(),
            volumes_fit(old(address_volumes).view(), outputs@),
            address_volumes.view() == volumes_after(old(address_volumes).view(), outputs@.take(i as int)),
        decreases outputs@.len() - i,
    {
        proof {
            assert(outputs@.take(i + 1).drop_last() =~= outputs@.take(i as int));
            lemma_volumes_fit_prefix(old(address_volumes).view(), outputs@, i + 1);
        }
        let output = &outputs[i];
        match &output.verbose_data {
            Some(v) => {
                let address = v.script_public_key_address.as_str();
                let current: u64 = match address_volumes.get(address) {
                    Some(x) => *x,
                    None => 0,
                };
                address_volumes.insert(address, current + output.value);
            },
            None => {},
        }
        i = i + 1;
    }
    assert(outputs@.take(outputs@.len() as int) =~= outputs@);
}

proof fn lemma_volumes_fit_prefix(m: Map<Seq<char>, u64>, outputs: Seq<crate::types::TransactionOutput>, i: int)
    requires
        0 <= i <= outputs.len(),
        volumes_fit(m, outputs),
    ensures
        volumes_fit(m, outputs.take(i)),
    decreases outputs.len() - i,
{
    if i < outputs.len() {
        lemma_volumes_fit_prefix(m, outputs.drop_last(), i);
        assert(outputs.drop_last().take(i) =~= outputs.take(i));
    } else {
        assert(outputs.take(i) =~= outputs);
    }
}

/// The volumes by address after the outputs of all entries, entry by entry.
pub open spec fn entry_volumes(entries: Seq<MempoolEntry>) -> Map<Seq<char>, u64>
    decreases entries.len(),
{
    if entries.len() == 0 {
        Map::empty()
    } else {
        volumes_after(entry_volumes(entries.drop_last()), entries.last().transaction.outputs@)
    }
}

/// Whether adding up the volumes of all entries stays within `u64`.
pub open spec fn entry_volumes_fit(entries: Seq<MempoolEntry>) -> bool
    decreases entries.len(),
{
    if entries.len() == 0 {
        true
    } else {
        entry_volumes_fit(entries.drop_last()) && volumes_fit(
            entry_volumes(entries.drop_last()),
            entries.last().transaction.outputs@,
        )
    }
}

proof fn lemma_entry_volumes_fit_prefix(entries: Seq<MempoolEntry>, i: int)
    requires
        0 <= i <= entries.len(),
        entry_volumes_fit(entries),
    ensures
        entry_volumes_fit(entries.take(i)),
    decreases entries.len() - i,
{
    if i < entries.len() {
        lemma_entry_volumes_fit_prefix(entries.drop_last(), i);
        assert(entries.drop_last().take(i) =~= entries.take(i));
    } else {
        assert(entries.take(i) =~= entries);
    }
}

/// The number of entries in each fee bracket.
pub open spec fn fee_counts(entries: Seq<MempoolEntry>) -> Map<Seq<char>, usize>
    decreases entries.len(),
{
    if entries.len() == 0 {
        Map::empty()
    } else {
        let before = fee_counts(entries.drop_last());
        let c = fee_category(entries.last().fee);
        before.insert(c, (if before.contains_key(c) { before[c] + 1 } else { 1 }) as usize)
    }
}

proof fn lemma_fee_counts_bounded(entries: Seq<MempoolEntry>)
    requires
        entries.len() <= usize::MAX,
    ensures
        forall|c: Seq<char>| #[trigger] fee_counts(entries).contains_key(c) ==> fee_counts(entries)[c]
            <= entries.len(),
    decreases entries.len(),
{
    if entries.len() > 0 {
        let before = fee_counts(entries.drop_last());
        lemma_fee_counts_bounded(entries.drop_last());
        let c0 = fee_category(entries.last().fee);
        assert forall|c: Seq<char>| #[trigger] fee_counts(entries).contains_key(c) implies fee_counts(entries)[c]
            <= entries.len() by {
            if c == c0 {
                if before.contains_key(c0) {
                    assert(before[c0] + 1 <= entries.len());
                }
            } else {
                assert(fee_counts(entries)[c] == before[c]);
            }
        }
    }
}

/// The number of orphan entries.
pub open spec fn orphan_total(entries: Seq<MempoolEntry>) -> nat
    decreases entries.len(),
{
    if entries.len() == 0 {
        0
    } else {
        orphan_total(entries.drop_last()) + if entries.last().is_orphan {
            1nat
        } else {
            0nat
        }
    }
}

/// The integer statistics of a list of mempool entries.
pub struct MempoolSummary {
    pub total_transactions: usize,
    pub total_fee: u64,
    pub all_fees: Vec<u64>,
    pub orphan_count: usize,
    pub fee_distribution: StrMap<usize>,
    pub address_volumes: StrMap<u64>,
}

/// Counts, fee total, fees, orphans, entries per fee bracket and volume per
/// address of a list of mempool entries.
pub fn summarize_entries(entries: &[MempoolEntry]) -> (s: MempoolSummary)
    requires
        fee_total(entries@) <= u64::MAX,
        entry_volumes_fit(entries@),
    ensures
        s.total_transactions == entries@.len(),
        s.total_fee == fee_total(entries@),
        s.all_fees@ == fees_of(entries@),
        s.orphan_count == orphan_total(entries@),
        s.fee_distribution.view() == fee_counts(entries@),
        s.address_volumes.view() == entry_volumes(entries@),
{
    let mut total_fee: u64 = 0;
    let mut all_fees: Vec<u64> = Vec::new();
    let mut orphan_count: usize = 0;
    let mut fee_ranges: StrMap<usize> = StrMap::new();
    let mut address_volumes: StrMap<u64> = StrMap::new();
    let mut i: usize = 0;
    while i < entries.len()
        invariant
            i <= entries@.len(),
            fee_total(entries@) <= u64::MAX,
            entry_volumes_fit(entries@),
            total_fee == fee_total(entries@.take(i as int)),
            all_fees@ == fees_of(entries@).take(i as int),
            orphan_count == orphan_total(entries@.take(i as int)),
            orphan_count <= i,
            fee_ranges.view() == fee_counts(entries@.take(i as int)),
            address_volumes.view() == entry_volumes(entries@.take(i as int)),
        decreases entries@.len() - i,
    {
        let entry = &entries[i];
        let ghost prefix = entries@.take(i + 1);
        proof {
            assert(prefix.drop_last() =~= entries@.take(i as int));
            assert(prefix.last() == *entry);
            lemma_fee_total_prefix(entries@, i + 1);
            lemma_entry_volumes_fit_prefix(entries@, i + 1);
            lemma_fee_counts_bounded(entries@.take(i as int));
            assert(fees_of(entries@).take(i + 1) =~= fees_of(entries@).take(i as int).push(entry.fee));
        }
        total_fee = total_fee + entry.fee;
        all_fees.push(entry.fee);
        if entry.is_orphan {
            orphan_count = orphan_count + 1;
        }
        analyze_transaction_io(&entry.transaction, &mut address_volumes);
        let category = categorize_fee(entry.fee);
        let count: usize = match fee_ranges.get(category.as_str()) {
            Some(c) => *c + 1,
            None => 1,
        };
        fee_ranges.insert(category.as_str(), count);
        i = i + 1;
    }
    assert(entries@.take(entries@.len() as int) =~= entries@);
    assert(fees_of(entries@).take(entries@.len() as int) =~= fees_of(entries@));
    MempoolSummary {
        total_transactions: entries.len(),
        total_fee,
        all_fees,
        orphan_count,
        fee_distribution: fee_ranges,
        address_volumes,
    }
}

/// The addresses of the largest volumes, largest first (equal volumes in the order
/// of the map), at most `top_n` of them, with their volumes.
pub fn get_top_addresses(volumes: &StrMap<u64>, top_n: usize) -> (r: Vec<(String, u64)>)
    ensures
        ({
            let order = descending_order(volumes.values(), volumes.values().len());
            &&& r@.len() == if top_n < volumes.values().len() { top_n as nat } else { volumes.values().len() }
            &&& forall|p: int| 0 <= p < r@.len() ==> (#[trigger] r@[p]).0@ == volumes.keys()[order[p]]@ && r@[p].1
                == volumes.values()[order[p]]
        }),
{
    let n = volumes.len();
    let mut values: Vec<u64> = Vec::new();
    let mut i: usize = 0;
    while i < n
        invariant
            n == volumes.values().len(),
            n == volumes.keys().len(),
            i <= n,
            values@ == volumes.values().take(i as int),
        decreases n - i,
    {
        values.push(*volumes.value_at(i));
        assert(volumes.values().take(i + 1) =~= volumes.values().take(i as int).push(volumes.values()[i as int]));
        i = i + 1;
    }
    assert(volumes.values().take(n as int) =~= volumes.values());
    let order = descending_positions(values.as_slice());
    let count: usize = if top_n < n { top_n } else { n };
    let mut top: Vec<(String, u64)> = Vec::new();
    let mut p: usize = 0;
    while p < count
        invariant
            n == volumes.values().len(),
            n == volumes.keys().len(),
            values@ == volumes.values(),
            as_ints(order@) == descending_order(values@, n as nat),
            crate::order::is_permutation_of(as_ints(order@), n as nat),
            count <= n,
            p <= count,
            top@.len() == p,
            forall|q: int| 0 <= q < p ==> (#[trigger] top@[q]).0@ == volumes.keys()[as_ints(order@)[q]]@
                && top@[q].1 == volumes.values()[as_ints(order@)[q]],
        decreases count - p,
    {
        let index = order[p];
        proof {
            assert(as_ints(order@)[p as int] == index as int);
        }
        top.push((volumes.key_at(index).clone(), *volumes.value_at(index)));
        p = p + 1;
    }
    top
}

/// The ids of the (at most) 1000 entries of highest fee, equal fees in their order:
/// those a block is taken to confirm.
pub open spec fn confirmed_ids(entries: Seq<MempoolEntry>) -> Set<Seq<char>> {
    let order = descending_order(fees_of(entries), entries.len());
    Set::new(
        |id: Seq<char>| exists|p: int| 0 <= p < entries.len() && p < 1000 && #[trigger] transaction_id(
            entries[order[p]],
        ) == id,
    )
}

/// The ids of the entries a block is taken to confirm: the 1000 of highest fee.
pub fn mock_block_confirmation(entries: &[MempoolEntry]) -> (r: StrSet)
    ensures
        r.view() == confirmed_ids(entries@),
{
    let fees = entry_fees(entries);
    let order = descending_positions(fees.as_slice());
    let n = entries.len();
    let count: usize = if n < 1000 { n } else { 1000 };
    let ghost o = as_ints(order@);
    let mut confirmed = StrSet::new();
    let mut p: usize = 0;
    while p < count
        invariant
            n == entries@.len(),
            fees@ == fees_of(entries@),
            o == as_ints(order@),
            o == descending_order(fees_of(entries@), n as nat),
            crate::order::is_permutation_of(o, n as nat),
            count <= n,
            count <= 1000,
            p <= count,
            confirmed.view() == Set::new(
                |id: Seq<char>| exists|q: int| 0 <= q < p && #[trigger] transaction_id(entries@[o[q]]) == id,
            ),
        decreases count - p,
    {
        let index = order[p];
        proof { assert(o[p as int] == index as int); }
        let id = get_transaction_id(&entries[index]);
        confirmed.insert(id.as_str());
        proof {
            assert(confirmed.view() =~= Set::new(
                |x: Seq<char>| exists|q: int| 0 <= q < p + 1 && #[trigger] transaction_id(entries@[o[q]]) == x,
            )) by {
                assert forall|x: Seq<char>| confirmed.view().contains(x) implies exists|q: int|
                    0 <= q < p + 1 && #[trigger] transaction_id(entries@[o[q]]) == x by {
                    if x == id@ {
                        assert(transaction_id(entries@[o[p as int]]) == x);
                    }
                }
            }
        }
        p = p + 1;
    }
    assert(confirmed.view() =~= confirmed_ids(entries@));
    confirmed
}


/// The ids of entries, in order.
pub open spec fn entry_ids(entries: Seq<MempoolEntry>) -> Seq<Seq<char>> {
    entries.map_values(|e: MempoolEntry| transaction_id(e))
}

/// The (parent, child) links of the first `k` inputs of a transaction whose id is
/// `child`: one for each input that spends an output of a transaction in the pool.
pub open spec fn input_links(tx: Transaction, child: Seq<char>, ids: Seq<Seq<char>>, k: int) -> Seq<
    (Seq<char>, Seq<char>),
>
    decreases k,
{
    if k <= 0 {
        Seq::empty()
    } else {
        input_links(tx, child, ids, k - 1) + if ids.contains(spent_ids(tx)[k - 1]) {
            seq![(spent_ids(tx)[k - 1], child)]
        } else {
            Seq::empty()
        }
    }
}

/// The (parent, child) links of the first `n` entries, entry by entry.
pub open spec fn dependency_links(entries: Seq<MempoolEntry>, n: int) -> Seq<(Seq<char>, Seq<char>)>
    decreases n,
{
    if n <= 0 {
        Seq::empty()
    } else {
        let ids = entry_ids(entries);
        dependency_links(entries, n - 1) + input_links(
            entries[n - 1].transaction,
            ids[n - 1],
            ids,
            entries[n - 1].transaction.inputs@.len() as int,
        )
    }
}

/// The children of each parent after the links are added one after the other.
pub open spec fn add_links(g: Map<Seq<char>, Seq<Seq<char>>>, links: Seq<(Seq<char>, Seq<char>)>) -> Map<
    Seq<char>,
    Seq<Seq<char>>,
>
    decreases links.len(),
{
    if links.len() == 0 {
        g
    } else {
        let before = add_links(g, links.drop_last());
        let (p, c) = links.last();
        before.insert(p, (if before.contains_key(p) { before[p] } else { Seq::empty() }).push(c))
    }
}

/// The parents of the links, in the order each first appears.
pub open spec fn link_order(links: Seq<(Seq<char>, Seq<char>)>) -> Seq<Seq<char>>
    decreases links.len(),
{
    if links.len() == 0 {
        Seq::empty()
    } else {
        let before = link_order(links.drop_last());
        if before.contains(links.last().0) {
            before
        } else {
            before.push(links.last().0)
        }
    }
}

/// The dependency graph of the entries: for each entry that another entry spends
/// from, the ids of the spending entries, one per spending input.
pub open spec fn dependency_graph(entries: Seq<MempoolEntry>) -> Map<Seq<char>, Seq<Seq<char>>> {
    add_links(Map::empty(), dependency_links(entries, entries.len() as int))
}

/// The ids of entries.
pub fn entry_id_list(entries: &[MempoolEntry]) -> (ids: Vec<String>)
    ensures
        texts(ids@) == entry_ids(entries@),
{
    let mut ids: Vec<String> = Vec::new();
    let mut i: usize = 0;
    while i < entries.len()
        invariant
            i <= entries@.len(),
            texts(ids@) == entry_ids(entries@).take(i as int),
        decreases entries@.len() - i,
    {
        let id = get_transaction_id(&entries[i]);
        let ghost prev = ids@;
        ids.push(id);
        assert(ids@ == prev.push(id));
        assert(texts(ids@) =~= texts(prev).push(id@));
        assert(entry_ids(entries@).take(i + 1) =~= entry_ids(entries@).take(i as int).push(transaction_id(entries@[i as int])));
        i = i + 1;
    }
    assert(entry_ids(entries@).take(entries@.len() as int) =~= entry_ids(entries@));
    ids
}

/// Whether one of `ids` has the text of `x`.
fn contains_text(ids: &Vec<String>, x: &str) -> (r: bool)
    ensures
        r == texts(ids@).contains(x@),
{
    let mut i: usize = 0;
    while i < ids.len()
        invariant
            i <= ids@.len(),
            forall|j: int| 0 <= j < i ==> ids@[j]@ != x@,
        decreases ids@.len() - i,
    {
        if crate::text::text_eq(ids[i].as_str(), x) {
            assert(texts(ids@)[i as int] == x@);
            return true;
        }
        i = i + 1;
    }
    assert forall|j: int| 0 <= j < texts(ids@).len() implies texts(ids@)[j] != x@ by {
        assert(texts(ids@)[j] == ids@[j]@);
    }
    false
}

/// The dependency graph, given the ids of the entries; its keys stand in the order
/// each parent was first linked.
fn dependency_graph_with(entries: &[MempoolEntry], ids: &Vec<String>) -> (g: StrMap<Vec<String>>)
    requires
        texts(ids@) == entry_ids(entries@),
    ensures
        child_texts(g.view()) == dependency_graph(entries@),
        texts(g.keys()) == link_order(dependency_links(entries@, entries@.len() as int)),
{
    let mut graph: StrMap<Vec<String>> = StrMap::new();
    let mut i: usize = 0;
    proof {
        assert(texts(ids@).len() == ids@.len());
        assert(child_texts(graph.view()) =~= Map::<Seq<char>, Seq<Seq<char>>>::empty());
        assert(texts(graph.keys()) =~= Seq::<Seq<char>>::empty());
    }
    while i < entries.len()
        invariant
            i <= entries@.len(),
            ids@.len() == entries@.len(),
            texts(ids@) == entry_ids(entries@),
            child_texts(graph.view()) == add_links(Map::empty(), dependency_links(entries@, i as int)),
            texts(graph.keys()) == link_order(dependency_links(entries@, i as int)),
        decreases entries@.len() - i,
    {
        let tx = &entries[i].transaction;
        let ghost before = dependency_links(entries@, i as int);
        let mut k: usize = 0;
        while k < tx.inputs.len()
            invariant
                i < entries@.len(),
                *tx == entries@[i as int].transaction,
                ids@.len() == entries@.len(),
                texts(ids@) == entry_ids(entries@),
                k <= tx.inputs@.len(),
                child_texts(graph.view()) == add_links(
                    Map::empty(),
                    before + input_links(*tx, ids@[i as int]@, texts(ids@), k as int),
                ),
                texts(graph.keys()) == link_order(before + input_links(*tx, ids@[i as int]@, texts(ids@), k as int)),
            decreases tx.inputs@.len() - k,
        {
            let parent = &tx.inputs[k].previous_outpoint.transaction_id;
            let ghost links = before + input_links(*tx, ids@[i as int]@, texts(ids@), k as int);
            let ghost next = before + input_links(*tx, ids@[i as int]@, texts(ids@), k + 1);
            proof {
                assert(spent_ids(*tx)[k as int] == parent@);
                assert(texts(ids@)[i as int] == ids@[i as int]@);
            }
            if contains_text(ids, parent.as_str()) {
                let ghost g0 = child_texts(graph.view());
                let n0 = graph.len();
                let mut list: Vec<String> = match graph.get(parent.as_str()) {
                    Some(v) => v.clone(),
                    None => Vec::new(),
                };
                assert(texts(list@) == (if g0.contains_key(parent@) { g0[parent@] } else { Seq::empty() }));
                list.push(ids[i].clone());
                assert(texts(list@) =~= (if g0.contains_key(parent@) { g0[parent@] } else { Seq::empty() }).push(
                    ids@[i as int]@,
                ));
                let ghost keys0 = graph.keys();
                graph.insert(parent.as_str(), list);
                proof {
                    assert(next =~= links.push((parent@, ids@[i as int]@)));
                    assert(next.drop_last() =~= links);
                    assert(child_texts(graph.view()) =~= g0.insert(parent@, texts(list@)));
                    assert(texts(keys0).contains(parent@) <==> g0.contains_key(parent@)) by {
                        if texts(keys0).contains(parent@) {
                            let j = choose|j: int| 0 <= j < texts(keys0).len() && texts(keys0)[j] == parent@;
                            assert(keys0[j]@ == parent@);
                            assert(text_set(keys0).contains(parent@));
                        }
                        if g0.contains_key(parent@) {
                            let j = choose|j: int| 0 <= j < keys0.len() && keys0[j]@ == parent@;
                            assert(texts(keys0)[j] == parent@);
                        }
                    }
                    if g0.contains_key(parent@) {
                        assert(graph.keys() == keys0);
                    } else {
                        assert(texts(graph.keys()) =~= texts(keys0).push(parent@));
                    }
                }
            } else {
                proof {
                    assert(next =~= links);
                }
            }
            k = k + 1;
        }
        proof {
            assert(dependency_links(entries@, i + 1) =~= before + input_links(
                *tx,
                ids@[i as int]@,
                texts(ids@),
                tx.inputs@.len() as int,
            ));
        }
        i = i + 1;
    }
    graph
}

/// The dependency graph of the entries: for each entry that another entry spends
/// from, the ids of the spending entries, one per spending input.
pub fn build_trade_depend_graph(entries: &[MempoolEntry]) -> (g: StrMap<Vec<String>>)
    ensures
        child_texts(g.view()) == dependency_graph(entries@),
        texts(g.keys()) == link_order(dependency_links(entries@, entries@.len() as int)),
{
    let ids = entry_id_list(entries);
    dependency_graph_with(entries, &ids)
}


/// The position of the first of `ids` equal to `x`.
#[verifier::opaque]
pub open spec fn first_index(ids: Seq<Seq<char>>, x: Seq<char>) -> int {
    choose|i: int| 0 <= i < ids.len() && ids[i] == x && forall|j: int| 0 <= j < i ==> ids[j] != x
}

/// A child-pays-for-parent candidate as texts and fees: parent id, child id,
/// combined fee, child fee.
pub open spec fn candidate_view(c: CpfpCandidate) -> (Seq<char>, Seq<char>, u64, u64) {
    (c.parent_tx_id@, c.child_tx_id@, c.combined_fee, c.fee_increase)
}

/// The candidates among the first `k` children of `parent`: each child paying a fee
/// above 1000, with the fees of the first entries that bear the two ids.
pub open spec fn cpfp_children(
    entries: Seq<MempoolEntry>,
    parent: Seq<char>,
    children: Seq<Seq<char>>,
    k: int,
) -> Seq<(Seq<char>, Seq<char>, u64, u64)>
    decreases k,
{
    if k <= 0 {
        Seq::empty()
    } else {
        let ids = entry_ids(entries);
        let c = children[k - 1];
        let child_fee = entries[first_index(ids, c)].fee;
        let parent_fee = entries[first_index(ids, parent)].fee;
        cpfp_children(entries, parent, children, k - 1) + if child_fee > 1000 {
            seq![(parent, c, (parent_fee + child_fee) as u64, child_fee)]
        } else {
            Seq::empty()
        }
    }
}

/// The candidates of the first `n` parents of `order`, parent by parent.
pub open spec fn cpfp_all(
    entries: Seq<MempoolEntry>,
    g: Map<Seq<char>, Seq<Seq<char>>>,
    order: Seq<Seq<char>>,
    n: int,
) -> Seq<(Seq<char>, Seq<char>, u64, u64)>
    decreases n,
{
    if n <= 0 {
        Seq::empty()
    } else {
        let p = order[n - 1];
        cpfp_all(entries, g, order, n - 1) + cpfp_children(entries, p, g[p], g[p].len() as int)
    }
}

/// The child-pays-for-parent candidates of a mempool: parent by parent, in the
/// order parents are first spent from, each spending child whose fee is above 1000.
pub open spec fn cpfp_candidates(entries: Seq<MempoolEntry>) -> Seq<(Seq<char>, Seq<char>, u64, u64)> {
    let order = link_order(dependency_links(entries, entries.len() as int));
    cpfp_all(entries, dependency_graph(entries), order, order.len() as int)
}

/// Whether the fees of the first entries with ids `p` and `c` add up within `u64`.
pub open spec fn link_fits(entries: Seq<MempoolEntry>, p: Seq<char>, c: Seq<char>) -> bool {
    let ids = entry_ids(entries);
    entries[first_index(ids, p)].fee + entries[first_index(ids, c)].fee <= u64::MAX
}

/// Whether, for every parent and spending child of the dependency graph, the two
/// fees add up within `u64`.
pub open spec fn linked_fees_fit(entries: Seq<MempoolEntry>) -> bool {
    let g = dependency_graph(entries);
    forall|p: Seq<char>, c: int| g.contains_key(p) && 0 <= c < g[p].len() ==> #[trigger] link_fits(entries, p, g[p][c])
}

/// Whether every link joins two ids of `ids`.
pub open spec fn links_within(links: Seq<(Seq<char>, Seq<char>)>, ids: Seq<Seq<char>>) -> bool {
    forall|j: int| 0 <= j < links.len() ==> ids.contains(#[trigger] links[j].0) && ids.contains(links[j].1)
}

proof fn lemma_input_links_within(tx: Transaction, child: Seq<char>, ids: Seq<Seq<char>>, k: int)
    requires
        ids.contains(child),
    ensures
        links_within(input_links(tx, child, ids, k), ids),
    decreases k,
{
    if k > 0 {
        lemma_input_links_within(tx, child, ids, k - 1);
        let a = input_links(tx, child, ids, k - 1);
        let l = input_links(tx, child, ids, k);
        assert forall|j: int| 0 <= j < l.len() implies ids.contains(#[trigger] l[j].0) && ids.contains(l[j].1) by {
            if j < a.len() {
                assert(l[j] == a[j]);
            }
        }
    }
}

proof fn lemma_dependency_links_within(entries: Seq<MempoolEntry>, n: int)
    requires
        n <= entries.len(),
    ensures
        links_within(dependency_links(entries, n), entry_ids(entries)),
    decreases n,
{
    if n > 0 {
        let ids = entry_ids(entries);
        lemma_dependency_links_within(entries, n - 1);
        assert(ids[n - 1] == transaction_id(entries[n - 1]));
        lemma_input_links_within(
            entries[n - 1].transaction,
            ids[n - 1],
            ids,
            entries[n - 1].transaction.inputs@.len() as int,
        );
        let a = dependency_links(entries, n - 1);
        let b = input_links(entries[n - 1].transaction, ids[n - 1], ids, entries[n - 1].transaction.inputs@.len() as int);
        let l = dependency_links(entries, n);
        assert(l == a + b);
        assert forall|j: int| 0 <= j < l.len() implies ids.contains(#[trigger] l[j].0) && ids.contains(l[j].1) by {
            if j < a.len() {
                assert(l[j] == a[j]);
            } else {
                assert(l[j] == b[j - a.len()]);
            }
        }
    }
}

proof fn lemma_add_links_within(links: Seq<(Seq<char>, Seq<char>)>, ids: Seq<Seq<char>>)
    requires
        links_within(links, ids),
    ensures
        forall|p: Seq<char>| #[trigger] add_links(Map::empty(), links).contains_key(p) ==> ids.contains(p)
            && forall|c: int| 0 <= c < add_links(Map::empty(), links)[p].len() ==> ids.contains(
            #[trigger] add_links(Map::empty(), links)[p][c],
        ),
    decreases links.len(),
{
    if links.len() > 0 {
        let rest = links.drop_last();
        assert(links_within(rest, ids)) by {
            assert forall|j: int| 0 <= j < rest.len() implies ids.contains(#[trigger] rest[j].0) && ids.contains(
                rest[j].1,
            ) by {
                assert(rest[j] == links[j]);
            }
        }
        lemma_add_links_within(rest, ids);
        let before = add_links(Map::empty(), rest);
        let g = add_links(Map::empty(), links);
        let (p0, c0) = links.last();
        assert(ids.contains(links[links.len() - 1].0));
        assert forall|p: Seq<char>| #[trigger] g.contains_key(p) implies ids.contains(p) && forall|c: int|
            0 <= c < g[p].len() ==> ids.contains(#[trigger] g[p][c]) by {
            if p == p0 {
                let old_list = if before.contains_key(p0) { before[p0] } else { Seq::empty() };
                assert(g[p] == old_list.push(c0));
                assert forall|c: int| 0 <= c < g[p].len() implies ids.contains(#[trigger] g[p][c]) by {
                    if c < old_list.len() {
                        assert(g[p][c] == old_list[c]);
                    }
                }
            }
        }
    }
}

/// The first position of `ids` whose text is `x`.
fn find_first(ids: &Vec<String>, x: &str) -> (r: usize)
    requires
        texts(ids@).contains(x@),
    ensures
        r < ids@.len(),
        r as int == first_index(texts(ids@), x@),
{
    let mut i: usize = 0;
    while i < ids.len()
        invariant
            i <= ids@.len(),
            texts(ids@).contains(x@),
            forall|j: int| 0 <= j < i ==> texts(ids@)[j] != x@,
        decreases ids@.len() - i,
    {
        if crate::text::text_eq(ids[i].as_str(), x) {
            proof {
                reveal(first_index);
                let t = texts(ids@);
                assert(t[i as int] == x@);
                let f = first_index(t, x@);
                assert(0 <= f < t.len() && t[f] == x@ && forall|j: int| 0 <= j < f ==> t[j] != x@);
                if f < i {
                } else if f > i {
                    assert(t[i as int] != x@);
                }
            }
            return i;
        }
        assert(texts(ids@)[i as int] == ids@[i as int]@);
        i = i + 1;
    }
    proof {
        let j = choose|j: int| 0 <= j < texts(ids@).len() && texts(ids@)[j] == x@;
    }
    0
}

/// The candidates of one parent, given the ids of the entries.
fn cpfp_of_parent(
    entries: &[MempoolEntry],
    ids: &Vec<String>,
    parent: &String,
    children: &Vec<String>,
    candidates: &mut Vec<CpfpCandidate>,
)
    requires
        texts(ids@) == entry_ids(entries@),
        entry_ids(entries@).contains(parent@),
        forall|c: int| 0 <= c < children@.len() ==> entry_ids(entries@).contains(#[trigger] texts(children@)[c]),
        forall|c: int| 0 <= c < children@.len() ==> link_fits(entries@, parent@, #[trigger] texts(children@)[c]),
    ensures
        final(candidates)@.map_values(|c: CpfpCandidate| candidate_view(c)) == old(candidates)@.map_values(
            |c: CpfpCandidate| candidate_view(c),
        ) + cpfp_children(entries@, parent@, texts(children@), children@.len() as int),
{
    proof { assert(texts(ids@).len() == ids@.len()); }
    let parent_index = find_first(ids, parent.as_str());
    let parent_fee = entries[parent_index].fee;
    let ghost before = old(candidates)@.map_values(|c: CpfpCandidate| candidate_view(c));
    let mut ci: usize = 0;
    while ci < children.len()
        invariant
            texts(ids@) == entry_ids(entries@),
            ids@.len() == entries@.len(),
            forall|c: int| 0 <= c < children@.len() ==> entry_ids(entries@).contains(#[trigger] texts(children@)[c]),
            forall|c: int| 0 <= c < children@.len() ==> link_fits(entries@, parent@, #[trigger] texts(children@)[c]),
            parent_index < entries@.len(),
            parent_index as int == first_index(entry_ids(entries@), parent@),
            parent_fee == entries@[parent_index as int].fee,
            ci <= children@.len(),
            candidates@.map_values(|c: CpfpCandidate| candidate_view(c)) == before + cpfp_children(
                entries@,
                parent@,
                texts(children@),
                ci as int,
            ),
        decreases children@.len() - ci,
    {
        let child = &children[ci];
        proof {
            assert(texts(children@)[ci as int] == child@);
        }
        let child_index = find_first(ids, child.as_str());
        let child_fee = entries[child_index].fee;
        assert(link_fits(entries@, parent@, texts(children@)[ci as int]));
        let ghost prev = candidates@;
        if child_fee > 1000 {
            let candidate = CpfpCandidate {
                parent_tx_id: parent.clone(),
                child_tx_id: child.clone(),
                combined_fee: parent_fee + child_fee,
                fee_increase: child_fee,
            };
            candidates.push(candidate);
            assert(candidates@ == prev.push(candidate));
            assert(candidates@.map_values(|c: CpfpCandidate| candidate_view(c)) =~= prev.map_values(
                |c: CpfpCandidate| candidate_view(c),
            ).push(candidate_view(candidate)));
        }
        assert(candidates@.map_values(|c: CpfpCandidate| candidate_view(c)) =~= before + cpfp_children(
            entries@,
            parent@,
            texts(children@),
            ci + 1,
        ));
        ci = ci + 1;
    }
}

/// The child-pays-for-parent candidates of a mempool: for each entry that others
/// spend from, each spending entry whose fee is above 1000, with the two fees.
pub fn detect_cpfp_candidates(entries: &[MempoolEntry]) -> (r: Vec<CpfpCandidate>)
    requires
        linked_fees_fit(entries@),
    ensures
        r@.map_values(|c: CpfpCandidate| candidate_view(c)) == cpfp_candidates(entries@),
{
    let ids = entry_id_list(entries);
    proof { assert(texts(ids@).len() == ids@.len()); }
    let graph = dependency_graph_with(entries, &ids);
    let ghost links = dependency_links(entries@, entries@.len() as int);
    let ghost order = link_order(links);
    let ghost g = dependency_graph(entries@);
    proof {
        lemma_dependency_links_within(entries@, entries@.len() as int);
        lemma_add_links_within(links, entry_ids(entries@));
    }
    let n = graph.len();
    let mut candidates: Vec<CpfpCandidate> = Vec::new();
    let mut pi: usize = 0;
    while pi < n
        invariant
            n == graph.keys().len(),
            texts(ids@) == entry_ids(entries@),
            linked_fees_fit(entries@),
            g == dependency_graph(entries@),
            child_texts(graph.view()) == g,
            texts(graph.keys()) == order,
            forall|p: Seq<char>| #[trigger] g.contains_key(p) ==> entry_ids(entries@).contains(p) && forall|c: int|
                0 <= c < g[p].len() ==> entry_ids(entries@).contains(#[trigger] g[p][c]),
            graph.view().dom() == text_set(graph.keys()),
            forall|i: int| 0 <= i < n ==> #[trigger] graph.view()[graph.keys()[i]@] == graph.values()[i],
            pi <= n,
            candidates@.map_values(|c: CpfpCandidate| candidate_view(c)) == cpfp_all(entries@, g, order, pi as int),
        decreases n - pi,
    {
        let parent = graph.key_at(pi);
        let children = graph.value_at(pi);
        proof {
            assert(order[pi as int] == parent@);
            assert(text_set(graph.keys()).contains(parent@));
            assert(g.contains_key(parent@));
            assert(g[parent@] == texts(children@));
            assert forall|c: int| 0 <= c < children@.len() implies link_fits(
                entries@,
                parent@,
                #[trigger] texts(children@)[c],
            ) by {
                assert(texts(children@)[c] == g[parent@][c]);
            }
        }
        cpfp_of_parent(entries, &ids, parent, children, &mut candidates);
        assert(candidates@.map_values(|c: CpfpCandidate| candidate_view(c)) =~= cpfp_all(entries@, g, order, pi + 1));
        pi = pi + 1;
    }
    candidates
}


/// Whether an entry moves more than 1,000,000,000.
pub open spec fn high_value(tx: Transaction) -> bool {
    output_total(tx) > 1_000_000_000
}

/// Whether a transaction gathers more than ten inputs into at most two outputs.
pub open spec fn wallet_sweep(tx: Transaction) -> bool {
    tx.inputs@.len() > 10 && tx.outputs@.len() <= 2
}

/// Whether a transaction has at least five outputs, all of the same positive value.
pub open spec fn mixing(tx: Transaction) -> bool {
    tx.outputs@.len() >= 5 && tx.outputs@[0].value > 0 && forall|i: int| 0 <= i < tx.outputs@.len()
        ==> #[trigger] tx.outputs@[i].value == tx.outputs@[0].value
}

/// Whether a transaction has more than ten outputs, all worth less than 1000.
pub open spec fn dust(tx: Transaction) -> bool {
    dust_count(tx.outputs@) > 10 && dust_count(tx.outputs@) == tx.outputs@.len()
}

/// The kinds of anomaly an entry shows, in the order they are checked.
pub open spec fn anomaly_kinds(snapshots: Seq<MemPoolSnapshot>, entry: MempoolEntry) -> Seq<AnomalyBehaviorType> {
    let tx = entry.transaction;
    (if high_value(tx) { seq![AnomalyBehaviorType::HighValueSuddenMovement] } else { Seq::empty() }) + (if wallet_sweep(
        tx,
    ) {
        seq![AnomalyBehaviorType::PossibleWalletSweep]
    } else {
        Seq::empty()
    }) + (if mixing(tx) { seq![AnomalyBehaviorType::MixingPattern] } else { Seq::empty() }) + (if dust(tx) {
        seq![AnomalyBehaviorType::DustSpam]
    } else {
        Seq::empty()
    }) + (if fee_spike(snapshots, entry.fee) { seq![AnomalyBehaviorType::FeeSpike] } else { Seq::empty() })
}

impl MempoolHistory {
    /// The kinds of anomaly an entry shows: a high-value movement, a wallet sweep, a
    /// mixing pattern, dust spam, a fee spike against the latest snapshot.
    pub fn analyze_transaction_anomalies(&self, entry: &MempoolEntry) -> (r: Vec<AnomalyBehaviorType>)
        requires
            output_total(entry.transaction) <= u64::MAX,
            self.snapshots().len() > 0 ==> median_fits(fees_of(self.snapshots().last().entries@)),
        ensures
            r@ == anomaly_kinds(self.snapshots(), *entry),
    {
        let mut anomalies: Vec<AnomalyBehaviorType> = Vec::new();
        let tx = &entry.transaction;
        if is_high_value_sudden_movement(tx) {
            anomalies.push(AnomalyBehaviorType::HighValueSuddenMovement);
        }
        if is_possible_wallet_sweep(tx) {
            anomalies.push(AnomalyBehaviorType::PossibleWalletSweep);
        }
        if is_mixing_pattern(tx) {
            anomalies.push(AnomalyBehaviorType::MixingPattern);
        }
        if is_dust_spam(tx) {
            anomalies.push(AnomalyBehaviorType::DustSpam);
        }
        if self.is_fee_spike(entry) {
            anomalies.push(AnomalyBehaviorType::FeeSpike);
        }
        assert(anomalies@ =~= anomaly_kinds(self.snapshots(), *entry));
        anomalies
    }
}

/// Every output is dust exactly when the count of dust outputs is the count of outputs.
proof fn lemma_dust_count_all(outputs: Seq<crate::types::TransactionOutput>)
    ensures
        dust_count(outputs) == outputs.len() <==> forall|i: int| 0 <= i < outputs.len() ==> #[trigger] outputs[i].value
            < 1000,
    decreases outputs.len(),
{
    if outputs.len() > 0 {
        let rest = outputs.drop_last();
        lemma_dust_count_all(rest);
        lemma_dust_count_bounded(rest);
        if forall|i: int| 0 <= i < outputs.len() ==> #[trigger] outputs[i].value < 1000 {
            assert forall|i: int| 0 <= i < rest.len() implies #[trigger] rest[i].value < 1000 by {
                assert(rest[i] == outputs[i]);
            }
            assert(outputs[outputs.len() - 1].value < 1000);
        }
        if dust_count(outputs) == outputs.len() {
            assert forall|i: int| 0 <= i < outputs.len() implies #[trigger] outputs[i].value < 1000 by {
                if i < rest.len() {
                    assert(rest[i] == outputs[i]);
                }
            }
        }
    }
}

/// Which anomalies an entry is reported with, each by what it means: a high-value
/// movement when its outputs total more than 1,000,000,000; a wallet sweep when
/// more than ten inputs go to at most two outputs; a mixing pattern when at least
/// five outputs all carry the same positive value; dust spam when more than ten
/// outputs are all worth less than 1000; a fee spike against the latest snapshot;
/// never a time-lock exploitation; each kind at most once.
pub proof fn lemma_anomaly_kinds_exact(snapshots: Seq<MemPoolSnapshot>, entry: MempoolEntry)
    ensures
        ({
            let tx = entry.transaction;
            let outs = tx.outputs@;
            let kinds = anomaly_kinds(snapshots, entry);
            &&& kinds.contains(AnomalyBehaviorType::HighValueSuddenMovement) <==> output_total(tx) > 1_000_000_000
            &&& kinds.contains(AnomalyBehaviorType::PossibleWalletSweep) <==> (tx.inputs@.len() > 10 && outs.len()
                <= 2)
            &&& kinds.contains(AnomalyBehaviorType::MixingPattern) <==> (outs.len() >= 5 && outs[0].value > 0
                && forall|i: int| 0 <= i < outs.len() ==> #[trigger] outs[i].value == outs[0].value)
            &&& kinds.contains(AnomalyBehaviorType::DustSpam) <==> (outs.len() > 10 && forall|i: int|
                0 <= i < outs.len() ==> #[trigger] outs[i].value < 1000)
            &&& kinds.contains(AnomalyBehaviorType::FeeSpike) <==> fee_spike(snapshots, entry.fee)
            &&& !kinds.contains(AnomalyBehaviorType::TimeLockExploitation)
            &&& kinds.no_duplicates()
        }),
{
    let tx = entry.transaction;
    let outs = tx.outputs@;
    lemma_dust_count_all(outs);
    let a = if high_value(tx) { seq![AnomalyBehaviorType::HighValueSuddenMovement] } else { Seq::empty() };
    let b = if wallet_sweep(tx) { seq![AnomalyBehaviorType::PossibleWalletSweep] } else { Seq::empty() };
    let c = if mixing(tx) { seq![AnomalyBehaviorType::MixingPattern] } else { Seq::empty() };
    let d = if dust(tx) { seq![AnomalyBehaviorType::DustSpam] } else { Seq::empty() };
    let e = if fee_spike(snapshots, entry.fee) { seq![AnomalyBehaviorType::FeeSpike] } else { Seq::empty() };
    let kinds = anomaly_kinds(snapshots, entry);
    assert(kinds == a + b + c + d + e);
    let all = a + b + c + d + e;
    let la = a.len() as int;
    let lb = la + b.len();
    let lc = lb + c.len();
    let ld = lc + d.len();
    assert forall|i: int| 0 <= i < all.len() implies {
        &&& (all[i] == AnomalyBehaviorType::HighValueSuddenMovement ==> high_value(tx))
        &&& (all[i] == AnomalyBehaviorType::PossibleWalletSweep ==> wallet_sweep(tx))
        &&& (all[i] == AnomalyBehaviorType::MixingPattern ==> mixing(tx))
        &&& (all[i] == AnomalyBehaviorType::DustSpam ==> dust(tx))
        &&& (all[i] == AnomalyBehaviorType::FeeSpike ==> fee_spike(snapshots, entry.fee))
        &&& all[i] != AnomalyBehaviorType::TimeLockExploitation
    } by {
        if i < la {
            assert(all[i] == a[i]);
        } else if i < lb {
            assert(all[i] == b[i - la]);
        } else if i < lc {
            assert(all[i] == c[i - lb]);
        } else if i < ld {
            assert(all[i] == d[i - lc]);
        } else {
            assert(all[i] == e[i - ld]);
        }
    }
    if high_value(tx) {
        assert(all[0] == AnomalyBehaviorType::HighValueSuddenMovement);
    }
    if wallet_sweep(tx) {
        assert(all[la] == AnomalyBehaviorType::PossibleWalletSweep);
    }
    if mixing(tx) {
        assert(all[lb] == AnomalyBehaviorType::MixingPattern);
    }
    if dust(tx) {
        assert(all[lc] == AnomalyBehaviorType::DustSpam);
    }
    if fee_spike(snapshots, entry.fee) {
        assert(all[ld] == AnomalyBehaviorType::FeeSpike);
    }
    assert(all.no_duplicates()) by {
        assert forall|i: int, j: int| 0 <= i < all.len() && 0 <= j < all.len() && i != j implies all[i] != all[j] by {
            assert(i < la ==> all[i] == a[i]);
            assert(la <= i < lb ==> all[i] == b[i - la]);
            assert(lb <= i < lc ==> all[i] == c[i - lb]);
            assert(lc <= i < ld ==> all[i] == d[i - lc]);
            assert(ld <= i ==> all[i] == e[i - ld]);
            assert(j < la ==> all[j] == a[j]);
            assert(la <= j < lb ==> all[j] == b[j - la]);
            assert(lb <= j < lc ==> all[j] == c[j - lb]);
            assert(lc <= j < ld ==> all[j] == d[j - lc]);
            assert(ld <= j ==> all[j] == e[j - ld]);
        }
    }
}

/// What each kind of anomaly is reported as.
pub open spec fn anomaly_text(kind: AnomalyBehaviorType) -> Seq<char> {
    match kind {
        AnomalyBehaviorType::HighValueSuddenMovement => "Detecting sudden movement of high-value assets"@,
        AnomalyBehaviorType::PossibleWalletSweep => "Possible wallet cleanup detected"@,
        AnomalyBehaviorType::MixingPattern => "Possible coin mixing pattern detected"@,
        AnomalyBehaviorType::DustSpam => "Dust attack detected"@,
        AnomalyBehaviorType::FeeSpike => "Abnormally high rates detected"@,
        AnomalyBehaviorType::TimeLockExploitation => "Possible time lock exploitation detected"@,
    }
}

impl AnomalyBehaviorType {
    /// The description an anomaly of this kind is reported with.
    pub fn description(&self) -> (d: String)
        ensures
            d@ == anomaly_text(*self),
    {
        match self {
            AnomalyBehaviorType::HighValueSuddenMovement => String::from_str("Detecting sudden movement of high-value assets"),
            AnomalyBehaviorType::PossibleWalletSweep => String::from_str("Possible wallet cleanup detected"),
            AnomalyBehaviorType::MixingPattern => String::from_str("Possible coin mixing pattern detected"),
            AnomalyBehaviorType::DustSpam => String::from_str("Dust attack detected"),
            AnomalyBehaviorType::FeeSpike => String::from_str("Abnormally high rates detected"),
            AnomalyBehaviorType::TimeLockExploitation => String::from_str("Possible time lock exploitation detected"),
        }
    }
}

/// The anomalies of the first `n` entries, entry by entry: the id of the entry
/// and each kind it shows.
pub open spec fn anomaly_rows(snapshots: Seq<MemPoolSnapshot>, entries: Seq<MempoolEntry>, n: int) -> Seq<
    (Seq<char>, AnomalyBehaviorType),
>
    decreases n,
{
    if n <= 0 {
        Seq::empty()
    } else {
        let e = entries[n - 1];
        anomaly_rows(snapshots, entries, n - 1) + anomaly_kinds(snapshots, e).map_values(
            |k: AnomalyBehaviorType| (transaction_id(e), k),
        )
    }
}

/// Whether every entry's outputs sum within `u64`.
pub open spec fn outputs_fit(entries: Seq<MempoolEntry>) -> bool {
    forall|i: int| 0 <= i < entries.len() ==> output_total(#[trigger] entries[i].transaction) <= u64::MAX
}

impl MempoolHistory {
    /// The anomalies of the given entries, in order: for each entry, its id with each
    /// kind of anomaly it shows.
    pub fn detect_transaction_anomalies(&self, entries: &[MempoolEntry]) -> (r: Vec<(String, AnomalyBehaviorType)>)
        requires
            outputs_fit(entries@),
            self.snapshots().len() > 0 ==> median_fits(fees_of(self.snapshots().last().entries@)),
        ensures
            r@.len() == anomaly_rows(self.snapshots(), entries@, entries@.len() as int).len(),
            forall|j: int|
                0 <= j < r@.len() ==> (#[trigger] r@[j]).0@ == anomaly_rows(
                    self.snapshots(),
                    entries@,
                    entries@.len() as int,
                )[j].0 && r@[j].1 == anomaly_rows(self.snapshots(), entries@, entries@.len() as int)[j].1,
    {
        let ghost snaps = self.snapshots();
        let mut rows: Vec<(String, AnomalyBehaviorType)> = Vec::new();
        let mut i: usize = 0;
        while i < entries.len()
            invariant
                snaps == self.snapshots(),
                outputs_fit(entries@),
                snaps.len() > 0 ==> median_fits(fees_of(snaps.last().entries@)),
                i <= entries@.len(),
                rows@.len() == anomaly_rows(snaps, entries@, i as int).len(),
                forall|j: int|
                    0 <= j < rows@.len() ==> (#[trigger] rows@[j]).0@ == anomaly_rows(snaps, entries@, i as int)[j].0
                        && rows@[j].1 == anomaly_rows(snaps, entries@, i as int)[j].1,
            decreases entries@.len() - i,
        {
            let entry = &entries[i];
            assert(output_total(entries@[i as int].transaction) <= u64::MAX);
            let kinds = self.analyze_transaction_anomalies(entry);
            let id = get_transaction_id(entry);
            let ghost before = anomaly_rows(snaps, entries@, i as int);
            let ghost added = anomaly_kinds(snaps, *entry).map_values(
                |k: AnomalyBehaviorType| (transaction_id(*entry), k),
            );
            let ghost start = rows@.len();
            let mut k: usize = 0;
            while k < kinds.len()
                invariant
                    kinds@ == anomaly_kinds(snaps, *entry),
                    id@ == transaction_id(*entry),
                    added == kinds@.map_values(|x: AnomalyBehaviorType| (transaction_id(*entry), x)),
                    start == before.len(),
                    k <= kinds@.len(),
                    rows@.len() == start + k,
                    forall|j: int|
                        0 <= j < rows@.len() ==> (#[trigger] rows@[j]).0@ == (before + added)[j].0 && rows@[j].1 == (
                        before + added)[j].1,
                decreases kinds@.len() - k,
            {
                rows.push((id.clone(), kinds[k]));
                k = k + 1;
            }
            proof {
                assert(anomaly_rows(snaps, entries@, i + 1) == before + added);
            }
            i = i + 1;
        }
        rows
    }
}

/// The number of addresses of largest volume that a mempool analysis lists.
pub const TOP_ADDRESS_COUNT: usize = 10;

/// The number of mempool entries the stress simulation holds at most.
pub const MEMPOOL_LIMIT: usize = 50000;

/// The ids a block is taken to confirm: those of the (at most) 1000 highest fees,
/// equal fees in their order.
pub open spec fn top_ids(fees: Seq<u64>, ids: Seq<Seq<char>>) -> Set<Seq<char>> {
    let order = descending_order(fees, fees.len());
    Set::new(|x: Seq<char>| exists|p: int| 0 <= p < fees.len() && p < 1000 && #[trigger] ids[order[p]] == x)
}

/// The positions, among the first `n`, whose id is not in `confirmed`.
pub open spec fn kept_positions(ids: Seq<Seq<char>>, confirmed: Set<Seq<char>>, n: int) -> Seq<int>
    decreases n,
{
    if n <= 0 {
        Seq::empty()
    } else {
        kept_positions(ids, confirmed, n - 1) + if confirmed.contains(ids[n - 1]) {
            Seq::empty()
        } else {
            seq![n - 1]
        }
    }
}

/// The ids at the given positions, in that order.
pub open spec fn ids_at(ids: Seq<Seq<char>>, order: Seq<int>) -> Seq<Seq<char>> {
    order.map_values(|i: int| ids[i])
}

/// One round of the simulation: the entries a block confirms leave; if the pool
/// and the arrivals exceed the limit, only the entries of highest fee that leave
/// room for the arrivals stay; then `new_txs` entries arrive, the `i`-th paying
/// `1000 + i % 1000`, all with the id `sim_id`. Gives the fees, the ids and the
/// number dropped for room.
pub open spec fn stress_step(fees: Seq<u64>, ids: Seq<Seq<char>>, new_txs: nat, sim_id: Seq<char>) -> (
    Seq<u64>,
    Seq<Seq<char>>,
    nat,
) {
    let kept = kept_positions(ids, top_ids(fees, ids), fees.len() as int);
    let f1 = values_at(fees, kept);
    let i1 = ids_at(ids, kept);
    let over = f1.len() + new_txs > MEMPOOL_LIMIT;
    let room = descending_order(f1, f1.len()).take(MEMPOOL_LIMIT - new_txs);
    let f2 = if over { values_at(f1, room) } else { f1 };
    let i2 = if over { ids_at(i1, room) } else { i1 };
    let dropped = if over { (f1.len() + new_txs - MEMPOOL_LIMIT) as nat } else { 0 };
    (
        f2 + Seq::new(new_txs, |i: int| (1000 + i % 1000) as u64),
        i2 + Seq::new(new_txs, |i: int| sim_id),
        dropped,
    )
}

/// `rounds` rounds of the simulation: the fees, the ids and the total dropped.
pub open spec fn stress_run(fees: Seq<u64>, ids: Seq<Seq<char>>, new_txs: nat, sim_id: Seq<char>, rounds: nat) -> (
    Seq<u64>,
    Seq<Seq<char>>,
    nat,
)
    decreases rounds,
{
    if rounds == 0 {
        (fees, ids, 0)
    } else {
        let (f, i, d) = stress_run(fees, ids, new_txs, sim_id, (rounds - 1) as nat);
        let (f2, i2, d2) = stress_step(f, i, new_txs, sim_id);
        (f2, i2, d + d2)
    }
}

/// The id every simulated arrival has: that of a version-0 transaction without
/// inputs, outputs, lock time, gas, payload or reported id.
pub open spec fn simulated_id() -> Seq<char> {
    "tx_"@ + hexadecimal(seahash_of(vstd::utf8::encode_utf8("0-0-0-0-0"@)) as nat)
}

fn simulated_entry_id() -> (id: String)
    ensures
        id@ == simulated_id(),
{
    let entry = MempoolEntry {
        fee: 1000,
        transaction: Transaction {
            version: 0,
            inputs: Vec::new(),
            outputs: Vec::new(),
            lock_time: 0,
            subnetwork_id: String::new(),
            gas: 0,
            payload: String::new(),
            verbose_data: None,
        },
        is_orphan: false,
    };
    proof {
        reveal_strlit("0-0-0-0-0");
        reveal_strlit("-");
        assert(decimal(0) == seq!['0']);
        assert(fingerprint(entry.transaction) =~= "0-0-0-0-0"@);
    }
    get_transaction_id(&entry)
}

fn confirmed_in(fees: &Vec<u64>, ids: &Vec<String>) -> (r: StrSet)
    requires
        fees@.len() == ids@.len(),
    ensures
        r.view() == top_ids(fees@, texts(ids@)),
{
    let order = descending_positions(fees.as_slice());
    let n = fees.len();
    let count: usize = if n < 1000 { n } else { 1000 };
    let ghost o = as_ints(order@);
    let ghost t = texts(ids@);
    let mut confirmed = StrSet::new();
    let mut p: usize = 0;
    while p < count
        invariant
            n == fees@.len(),
            n == ids@.len(),
            t == texts(ids@),
            o == as_ints(order@),
            o == descending_order(fees@, n as nat),
            crate::order::is_permutation_of(o, n as nat),
            count <= n,
            count <= 1000,
            p <= count,
            confirmed.view() == Set::new(|x: Seq<char>| exists|q: int| 0 <= q < p && #[trigger] t[o[q]] == x),
        decreases count - p,
    {
        let index = order[p];
        proof {
            assert(o[p as int] == index as int);
            assert(t[index as int] == ids@[index as int]@);
        }
        confirmed.insert(ids[index].as_str());
        proof {
            assert(confirmed.view() =~= Set::new(|x: Seq<char>| exists|q: int| 0 <= q < p + 1 && #[trigger] t[o[q]] == x)) by {
                assert forall|x: Seq<char>| confirmed.view().contains(x) implies exists|q: int|
                    0 <= q < p + 1 && #[trigger] t[o[q]] == x by {
                    if x == ids@[index as int]@ {
                        assert(t[o[p as int]] == x);
                    }
                }
            }
        }
        p = p + 1;
    }
    assert(confirmed.view() =~= top_ids(fees@, t));
    confirmed
}

fn keep_unconfirmed(fees: &Vec<u64>, ids: &Vec<String>, confirmed: &StrSet) -> (r: (Vec<u64>, Vec<String>))
    requires
        fees@.len() == ids@.len(),
    ensures
        r.0@ == values_at(fees@, kept_positions(texts(ids@), confirmed.view(), fees@.len() as int)),
        texts(r.1@) == ids_at(texts(ids@), kept_positions(texts(ids@), confirmed.view(), fees@.len() as int)),
{
    let ghost t = texts(ids@);
    let mut kept_fees: Vec<u64> = Vec::new();
    let mut kept_ids: Vec<String> = Vec::new();
    let mut i: usize = 0;
    while i < fees.len()
        invariant
            fees@.len() == ids@.len(),
            t == texts(ids@),
            i <= fees@.len(),
            kept_fees@ == values_at(fees@, kept_positions(t, confirmed.view(), i as int)),
            texts(kept_ids@) == ids_at(t, kept_positions(t, confirmed.view(), i as int)),
        decreases fees@.len() - i,
    {
        let ghost k0 = kept_positions(t, confirmed.view(), i as int);
        let ghost pf = kept_fees@;
        let ghost pi = kept_ids@;
        proof { assert(t[i as int] == ids@[i as int]@); }
        if !confirmed.contains(ids[i].as_str()) {
            kept_fees.push(fees[i]);
            kept_ids.push(ids[i].clone());
            proof {
                assert(kept_positions(t, confirmed.view(), i + 1) =~= k0.push(i as int));
                assert(kept_fees@ =~= values_at(fees@, k0.push(i as int)));
                assert(kept_ids@ == pi.push(ids@[i as int]));
                assert(texts(kept_ids@) =~= texts(pi).push(ids@[i as int]@));
                assert(ids_at(t, k0.push(i as int)) =~= ids_at(t, k0).push(t[i as int]));
            }
        } else {
            proof {
                assert(kept_positions(t, confirmed.view(), i + 1) =~= k0);
            }
        }
        i = i + 1;
    }
    (kept_fees, kept_ids)
}

fn make_room(fees: Vec<u64>, ids: Vec<String>, new_txs: usize) -> (r: (Vec<u64>, Vec<String>, usize))
    requires
        fees@.len() == ids@.len(),
        new_txs <= MEMPOOL_LIMIT,
    ensures
        ({
            let over = fees@.len() + new_txs > MEMPOOL_LIMIT;
            let room = descending_order(fees@, fees@.len()).take(MEMPOOL_LIMIT - new_txs);
            &&& r.0@ == if over { values_at(fees@, room) } else { fees@ }
            &&& texts(r.1@) == if over { ids_at(texts(ids@), room) } else { texts(ids@) }
            &&& r.2 == if over { (fees@.len() + new_txs - MEMPOOL_LIMIT) as nat } else { 0 }
            &&& r.0@.len() == r.1@.len()
            &&& r.0@.len() <= fees@.len()
            &&& r.0@.len() + r.2 <= fees@.len()
            &&& r.0@.len() + new_txs <= MEMPOOL_LIMIT
        }),
{
    if fees.len() <= MEMPOOL_LIMIT - new_txs {
        return (fees, ids, 0);
    }
    let cap = MEMPOOL_LIMIT - new_txs;
    let to_drop = fees.len() - cap;
    let order = descending_positions(fees.as_slice());
    let ghost o = as_ints(order@);
    let ghost t = texts(ids@);
    let mut kept_fees: Vec<u64> = Vec::new();
    let mut kept_ids: Vec<String> = Vec::new();
    let mut p: usize = 0;
    while p < cap
        invariant
            fees@.len() == ids@.len(),
            cap < fees@.len(),
            o == as_ints(order@),
            o == descending_order(fees@, fees@.len()),
            crate::order::is_permutation_of(o, fees@.len()),
            t == texts(ids@),
            p <= cap,
            kept_fees@ == values_at(fees@, o.take(p as int)),
            texts(kept_ids@) == ids_at(t, o.take(p as int)),
            kept_fees@.len() == p,
            kept_ids@.len() == p,
        decreases cap - p,
    {
        let index = order[p];
        let ghost pi = kept_ids@;
        proof {
            assert(o[p as int] == index as int);
            assert(t[index as int] == ids@[index as int]@);
            assert(o.take(p + 1) =~= o.take(p as int).push(index as int));
        }
        kept_fees.push(fees[index]);
        kept_ids.push(ids[index].clone());
        proof {
            assert(kept_fees@ =~= values_at(fees@, o.take(p + 1)));
            assert(kept_ids@ == pi.push(ids@[index as int]));
            assert(texts(kept_ids@) =~= texts(pi).push(ids@[index as int]@));
            assert(ids_at(t, o.take(p + 1)) =~= ids_at(t, o.take(p as int)).push(t[index as int]));
        }
        p = p + 1;
    }
    (kept_fees, kept_ids, to_drop)
}

fn add_arrivals(fees: &mut Vec<u64>, ids: &mut Vec<String>, new_txs: usize, sim_id: &String)
    ensures
        final(fees)@ == old(fees)@ + Seq::new(new_txs as nat, |i: int| (1000 + i % 1000) as u64),
        texts(final(ids)@) == texts(old(ids)@) + Seq::new(new_txs as nat, |i: int| sim_id@),
{
    let mut i: usize = 0;
    while i < new_txs
        invariant
            i <= new_txs,
            fees@ == old(fees)@ + Seq::new(i as nat, |j: int| (1000 + j % 1000) as u64),
            texts(ids@) == texts(old(ids)@) + Seq::new(i as nat, |j: int| sim_id@),
        decreases new_txs - i,
    {
        let ghost pi = ids@;
        fees.push(1000 + (i % 1000) as u64);
        ids.push(sim_id.clone());
        proof {
            assert(fees@ =~= old(fees)@ + Seq::new((i + 1) as nat, |j: int| (1000 + j % 1000) as u64));
            assert(ids@ == pi.push(*sim_id));
            assert(texts(ids@) =~= texts(pi).push(sim_id@));
            assert(texts(ids@) =~= texts(old(ids)@) + Seq::new((i + 1) as nat, |j: int| sim_id@));
        }
        i = i + 1;
    }
}

impl MempoolHistory {
    /// Simulates `iterations` rounds of the mempool, starting from the latest
    /// snapshot, with `new_txs` arrivals per round (see `stress_step`).
    pub fn mock_mempool_stress(&self, new_txs: usize, iterations: u64) -> (r: StressTestResult)
        requires
            self.snapshots().len() > 0,
            iterations > 0 ==> new_txs <= MEMPOOL_LIMIT,
            iterations * new_txs <= usize::MAX,
        ensures
            ({
                let last = self.snapshots().last();
                let (f, i, d) = stress_run(
                    fees_of(last.entries@),
                    entry_ids(last.entries@),
                    new_txs as nat,
                    simulated_id(),
                    iterations as nat,
                );
                &&& r.initial_size == last.total_transactions
                &&& r.final_size == f.len()
                &&& r.total_added == iterations * new_txs
                &&& r.total_dropped == if d <= usize::MAX { d } else { usize::MAX as nat }
                &&& r.average_confirmation_secs == 10
                &&& r.congestion_level == congestion_of(f.len())
                &&& r.final_size + d <= last.entries@.len() + r.total_added
                &&& iterations > 0 ==> r.final_size <= MEMPOOL_LIMIT
                &&& iterations == 0 ==> r.final_size == last.entries@.len() && r.total_dropped == 0
            }),
    {
        let last = &self.history[self.history.len() - 1];
        let mut fees = entry_fees(last.entries.as_slice());
        let mut ids = entry_id_list(last.entries.as_slice());
        let sim_id = simulated_entry_id();
        let ghost f0 = fees@;
        let ghost i0 = texts(ids@);
        let ghost n0 = last.entries@.len();
        proof { assert(texts(ids@).len() == ids@.len()); }
        let mut total_added: usize = 0;
        let mut total_dropped: usize = 0;
        let ghost mut dropped_exact: nat = 0;
        let mut round: u64 = 0;
        proof { assert(fees@.len() == n0); }
        while round < iterations
            invariant
                round <= iterations,
                iterations > 0 ==> new_txs <= MEMPOOL_LIMIT,
                iterations * new_txs <= usize::MAX,
                fees@.len() == ids@.len(),
                (fees@, texts(ids@), dropped_exact) == stress_run(f0, i0, new_txs as nat, sim_id@, round as nat),
                total_dropped == if dropped_exact <= usize::MAX { dropped_exact } else { usize::MAX as nat },
                total_added == round * new_txs,
                fees@.len() + dropped_exact <= n0 + round * new_txs,
                round > 0 ==> fees@.len() <= MEMPOOL_LIMIT,
            decreases iterations - round,
        {
            proof {
                assert(round * new_txs + new_txs == (round + 1) * new_txs) by (nonlinear_arith);
                assert((round + 1) * new_txs <= iterations * new_txs) by (nonlinear_arith)
                    requires round + 1 <= iterations;
            }
            let confirmed = confirmed_in(&fees, &ids);
            let (kept_fees, kept_ids) = keep_unconfirmed(&fees, &ids, &confirmed);
            proof {
                lemma_kept_positions_len(texts(ids@), confirmed.view(), fees@.len() as int);
                assert(texts(kept_ids@).len() == kept_ids@.len());
            }
            let (mut next_fees, mut next_ids, dropped) = make_room(kept_fees, kept_ids, new_txs);
            add_arrivals(&mut next_fees, &mut next_ids, new_txs, &sim_id);
            proof {
                assert(texts(next_ids@).len() == next_ids@.len());
            }
            total_dropped = total_dropped.saturating_add(dropped);
            proof { dropped_exact = dropped_exact + dropped as nat; }
            total_added = total_added + new_txs;
            fees = next_fees;
            ids = next_ids;
            round = round + 1;
        }
        StressTestResult {
            initial_size: last.total_transactions,
            final_size: fees.len(),
            total_added,
            total_dropped,
            average_confirmation_secs: 10,
            congestion_level: assess_congestion_level_of(fees.len()),
        }
    }
}

/// The congestion of a mempool of `count` transactions.
fn assess_congestion_level_of(count: usize) -> (c: CongestionLevel)
    ensures
        c == congestion_of(count as nat),
{
    if count <= 1000 {
        CongestionLevel::Idle
    } else if count <= 5000 {
        CongestionLevel::Normal
    } else if count <= 20000 {
        CongestionLevel::High
    } else {
        CongestionLevel::SHigh
    }
}

proof fn lemma_kept_positions_len(ids: Seq<Seq<char>>, confirmed: Set<Seq<char>>, n: int)
    requires
        0 <= n,
    ensures
        kept_positions(ids, confirmed, n).len() <= n,
        forall|j: int| 0 <= j < kept_positions(ids, confirmed, n).len() ==> 0 <= #[trigger] kept_positions(
            ids,
            confirmed,
            n,
        )[j] < n,
    decreases n,
{
    if n > 0 {
        lemma_kept_positions_len(ids, confirmed, n - 1);
        let a = kept_positions(ids, confirmed, n - 1);
        let k = kept_positions(ids, confirmed, n);
        assert forall|j: int| 0 <= j < k.len() implies 0 <= #[trigger] k[j] < n by {
            if j < a.len() {
                assert(k[j] == a[j]);
            }
        }
    }
}

} // verus!
