//! Node notifications: the events, which subscriptions a listener makes, how a
//! notification method is read, and the reconnecting loop's decisions.

use vstd::prelude::*;

use crate::collections::StrSet;
use crate::text::{concat, text_eq};
use crate::types::{Block, KaspaError, Transaction, UtxosChangedNotification, VirtualChainChangedNotification};

verus! {

/// A block joined the DAG.
#[derive(Debug, Clone)]
pub struct BlockAddedEvent {
    pub block: Block,
    pub block_hash: String,
    pub daa_score: u64,
    pub blue_score: u64,
}

/// A block violated finality.
#[derive(Debug, Clone)]
pub struct FinalityConflictEvent {
    pub violating_block_hash: String,
}

/// A transaction entered the mempool.
#[derive(Debug, Clone)]
pub struct NewTransactionEvent {
    pub transaction: Transaction,
    pub transaction_id: String,
    pub is_orphan: bool,
}

/// The node's synchronisation state changed.
#[derive(Debug, Clone)]
pub struct SyncStateChangedEvent {
    pub is_synced: bool,
    pub current_block_count: u64,
    pub header_count: u64,
}

/// The node's peers changed.
#[derive(Debug, Clone)]
pub struct PeerStateChangedEvent {
    pub peer_count: usize,
    pub connected_peers: Vec<String>,
    pub disconnected_peers: Vec<String>,
}

/// A notification from the node.
#[derive(Debug, Clone)]
pub enum KaspaEvent {
    BlockAdded(BlockAddedEvent),
    VirtualChainChanged(VirtualChainChangedNotification),
    UtxosChanged(UtxosChangedNotification),
    FinalityConflict(FinalityConflictEvent),
    NewTransaction(NewTransactionEvent),
    SyncStateChanged(SyncStateChangedEvent),
    PeerStateChanged(PeerStateChangedEvent),
}

/// Something that wants to hear of each event.
pub trait EventListener: Send + Sync {
    fn on_event(&self, event: &KaspaEvent);
}

/// A length of time as `std::time::Duration` holds it: whole seconds, and the
/// nanoseconds of the second under way (below 1,000,000,000).
#[derive(Debug, Clone, Copy, PartialEq, Eq, Structural)]
pub struct Interval {
    pub secs: u64,
    pub nanos: u32,
}

/// Settings of an event listener.
#[derive(Debug, Clone)]
pub struct EventListenerConfig {
    pub ws_url: String,
    pub username: Option<String>,
    pub password: Option<String>,
    pub reconnect_interval: Interval,
    pub max_reconnect_attempts: usize,
}

impl Default for EventListenerConfig {
    /// A local node on the default port, no credentials, a retry every 5 s, at most
    /// 10 failed connections in a row.
    fn default() -> (c: Self)
        ensures
            c.ws_url@ == "ws://localhost:16110"@,
            c.username is None,
            c.password is None,
            c.reconnect_interval == (Interval { secs: 5, nanos: 0 }),
            c.max_reconnect_attempts == 10,
    {
        EventListenerConfig {
            ws_url: String::from_str("ws://localhost:16110"),
            username: None,
            password: None,
            reconnect_interval: Interval { secs: 5, nanos: 0 },
            max_reconnect_attempts: 10,
        }
    }
}

/// The kinds of notification method a listener understands.
#[derive(Debug, Clone, Copy, PartialEq, Eq, Structural)]
pub enum EventMethod {
    BlockAdded,
    VirtualChainChanged,
    UtxosChanged,
    NewTransaction,
    FinalityConflict,
}

/// The kind of a notification method's name, if it is one a listener understands.
pub open spec fn method_kind(method: Seq<char>) -> Option<EventMethod> {
    if method == "blockAdded"@ {
        Some(EventMethod::BlockAdded)
    } else if method == "virtualChainChanged"@ {
        Some(EventMethod::VirtualChainChanged)
    } else if method == "utxosChanged"@ {
        Some(EventMethod::UtxosChanged)
    } else if method == "newTransaction"@ {
        Some(EventMethod::NewTransaction)
    } else if method == "finalityConflict"@ {
        Some(EventMethod::FinalityConflict)
    } else {
        None
    }
}

/// Reads a notification method's name; an unknown one is an error that names it.
pub fn classify_event_method(method: &str) -> (r: Result<EventMethod, KaspaError>)
    ensures
        method_kind(method@) matches Some(k) ==> r == Ok::<EventMethod, KaspaError>(k),
        method_kind(method@) is None ==> (r matches Err(KaspaError::Custom(m)) && m@ == "Unknown event method: "@
            + method@),
{
    if text_eq(method, "blockAdded") {
        Ok(EventMethod::BlockAdded)
    } else if text_eq(method, "virtualChainChanged") {
        Ok(EventMethod::VirtualChainChanged)
    } else if text_eq(method, "utxosChanged") {
        Ok(EventMethod::UtxosChanged)
    } else if text_eq(method, "newTransaction") {
        Ok(EventMethod::NewTransaction)
    } else if text_eq(method, "finalityConflict") {
        Ok(EventMethod::FinalityConflict)
    } else {
        Err(KaspaError::Custom(concat("Unknown event method: ", method)))
    }
}

/// The event a `blockAdded` notification carrying `block` is read as: the notification
/// gives no hash or scores, so they stay empty and zero.
pub fn block_added_event(block: Block) -> (e: KaspaEvent)
    ensures
        e matches KaspaEvent::BlockAdded(b) && b.block == block && b.block_hash@.len() == 0 && b.daa_score == 0
            && b.blue_score == 0,
{
    KaspaEvent::BlockAdded(BlockAddedEvent { block, block_hash: String::new(), daa_score: 0, blue_score: 0 })
}

/// The event a `finalityConflict` notification is read as: it names no block.
pub fn finality_conflict_event() -> (e: KaspaEvent)
    ensures
        e matches KaspaEvent::FinalityConflict(f) && f.violating_block_hash@.len() == 0,
{
    KaspaEvent::FinalityConflict(FinalityConflictEvent { violating_block_hash: String::new() })
}

/// A subscription a listener asks the node for.
#[derive(Debug, Clone)]
pub enum Subscription {
    /// New transactions, with their details.
    NewTransactions,
    /// Blocks added to the DAG.
    BlocksAdded,
    /// Changes of the virtual chain, with the accepted transaction ids.
    VirtualChain,
    /// Changes of the unspent outputs of these addresses.
    Utxos(Vec<String>),
}

/// The request id each subscription is sent under.
pub open spec fn subscription_id_of(s: Subscription) -> u64 {
    match s {
        Subscription::NewTransactions => 4,
        Subscription::BlocksAdded => 1,
        Subscription::VirtualChain => 2,
        Subscription::Utxos(_) => 3,
    }
}

/// The RPC method of each subscription.
pub open spec fn subscription_method_of(s: Subscription) -> Seq<char> {
    match s {
        Subscription::NewTransactions => "notifyNewTransaction"@,
        Subscription::BlocksAdded => "notifyBlockAdded"@,
        Subscription::VirtualChain => "notifyVirtualChainChanged"@,
        Subscription::Utxos(_) => "notifyUtxosChanged"@,
    }
}

/// What a failure to send each subscription is reported as, before the cause.
pub open spec fn subscription_failure_of(s: Subscription) -> Seq<char> {
    match s {
        Subscription::NewTransactions => "Failed to subscribe to new transactions: "@,
        Subscription::BlocksAdded => "Failed to subscribe to blocks: "@,
        Subscription::VirtualChain => "Failed to subscribe to virtual chain: "@,
        Subscription::Utxos(_) => "Failed to subscribe to UTXOs: "@,
    }
}

impl Subscription {
    /// The request id this subscription is sent under.
    pub fn id(&self) -> (r: u64)
        ensures
            r == subscription_id_of(*self),
    {
        match self {
            Subscription::NewTransactions => 4,
            Subscription::BlocksAdded => 1,
            Subscription::VirtualChain => 2,
            Subscription::Utxos(_) => 3,
        }
    }

    /// The RPC method of this subscription.
    pub fn method(&self) -> (r: String)
        ensures
            r@ == subscription_method_of(*self),
    {
        match self {
            Subscription::NewTransactions => String::from_str("notifyNewTransaction"),
            Subscription::BlocksAdded => String::from_str("notifyBlockAdded"),
            Subscription::VirtualChain => String::from_str("notifyVirtualChainChanged"),
            Subscription::Utxos(_) => String::from_str("notifyUtxosChanged"),
        }
    }

    /// The error a failure to send this subscription is reported as, given its cause.
    pub fn failure(&self, cause: &str) -> (e: KaspaError)
        ensures
            e matches KaspaError::Custom(m) && m@ == subscription_failure_of(*self) + cause@,
    {
        let prefix = match self {
            Subscription::NewTransactions => "Failed to subscribe to new transactions: ",
            Subscription::BlocksAdded => "Failed to subscribe to blocks: ",
            Subscription::VirtualChain => "Failed to subscribe to virtual chain: ",
            Subscription::Utxos(_) => "Failed to subscribe to UTXOs: ",
        };
        KaspaError::Custom(concat(prefix, cause))
    }
}

/// The state a listener keeps between calls: whether it runs, the addresses whose
/// outputs it watches, and how many connections in a row have failed.
pub struct ListenerState {
    pub running: bool,
    pub subscribed_addresses: StrSet,
    pub failed_attempts: usize,
}

/// A step the event loop takes next.
#[derive(Debug, Clone, Copy, PartialEq, Eq, Structural)]
pub enum LoopAction {
    /// Open the websocket.
    Connect,
    /// Send the subscriptions.
    Subscribe,
    /// Wait for the next message and handle it.
    ReadNext,
    /// Wait this long before connecting again.
    Sleep(Interval),
    /// Leave the loop.
    Exit,
}

/// What happened in the step the event loop took last.
#[derive(Debug, Clone, Copy, PartialEq, Eq, Structural)]
pub enum LoopEvent {
    /// The loop begins.
    Started,
    /// The websocket opened.
    Connected,
    /// The websocket could not be opened.
    ConnectFailed,
    /// Every subscription was sent.
    Subscribed,
    /// A subscription could not be sent.
    SubscribeFailed,
    /// A message was read (and handled, or its error reported).
    MessageRead,
    /// The stream failed or ended.
    StreamClosed,
    /// The wait before a new connection is over.
    Slept,
}

/// The loop's next step, and the count of failed connections after it, given the
/// last event, whether the listener still runs, the count before it and the settings.
pub open spec fn loop_step(event: LoopEvent, running: bool, failed: nat, max_attempts: nat, interval: Interval) -> (
    LoopAction,
    nat,
) {
    match event {
        LoopEvent::Connected => (LoopAction::Subscribe, 0),
        LoopEvent::ConnectFailed => (LoopAction::Sleep(interval), failed + 1),
        LoopEvent::Subscribed | LoopEvent::MessageRead => {
            if running {
                (LoopAction::ReadNext, failed)
            } else {
                (LoopAction::Exit, failed)
            }
        },
        _ => {
            if running && failed < max_attempts {
                (LoopAction::Connect, failed)
            } else {
                (LoopAction::Exit, failed)
            }
        },
    }
}

impl ListenerState {
    /// A listener that does not run and watches no address.
    pub fn new() -> (s: Self)
        ensures
            !s.running,
            s.subscribed_addresses.view() == Set::<Seq<char>>::empty(),
            s.failed_attempts == 0,
    {
        ListenerState { running: false, subscribed_addresses: StrSet::new(), failed_attempts: 0 }
    }

    /// Starts the listener; one that already runs is an error and stays as it is.
    pub fn start(&mut self) -> (r: Result<(), KaspaError>)
        ensures
            old(self).running ==> (r matches Err(KaspaError::Custom(m)) && m@ == "EventListener is already running"@),
            old(self).running ==> final(self).running,
            !old(self).running ==> r is Ok && final(self).running,
            final(self).subscribed_addresses.view() == old(self).subscribed_addresses.view(),
            final(self).failed_attempts == old(self).failed_attempts,
    {
        if self.running {
            return Err(KaspaError::Custom(String::from_str("EventListener is already running")));
        }
        self.running = true;
        Ok(())
    }

    /// Stops the listener.
    pub fn stop(&mut self)
        ensures
            !final(self).running,
            final(self).subscribed_addresses.view() == old(self).subscribed_addresses.view(),
            final(self).failed_attempts == old(self).failed_attempts,
    {
        self.running = false;
    }

    /// Watches the outputs of `address` too.
    pub fn subscribe_to_address(&mut self, address: &str) -> (r: Result<(), KaspaError>)
        ensures
            r is Ok,
            final(self).subscribed_addresses.view() == old(self).subscribed_addresses.view().insert(address@),
            final(self).running == old(self).running,
            final(self).failed_attempts == old(self).failed_attempts,
    {
        self.subscribed_addresses.insert(address);
        Ok(())
    }

    /// Stops watching the outputs of `address`.
    pub fn unsubscribe_from_address(&mut self, address: &str) -> (r: Result<(), KaspaError>)
        ensures
            r is Ok,
            final(self).subscribed_addresses.view() == old(self).subscribed_addresses.view().remove(address@),
            final(self).running == old(self).running,
            final(self).failed_attempts == old(self).failed_attempts,
    {
        self.subscribed_addresses.remove(address);
        Ok(())
    }

    /// The subscriptions to send on a new connection, in order: new transactions,
    /// added blocks, the virtual chain, and the watched addresses' outputs if any
    /// address is watched.
    pub fn subscriptions(&self) -> (r: Vec<Subscription>)
        ensures
            self.subscribed_addresses.items().len() == 0 ==> r@.len() == 3,
            self.subscribed_addresses.items().len() > 0 ==> r@.len() == 4,
            r@[0] is NewTransactions,
            r@[1] is BlocksAdded,
            r@[2] is VirtualChain,
            self.subscribed_addresses.items().len() > 0 ==> (r@[3] matches Subscription::Utxos(a) && a@
                == self.subscribed_addresses.items()),
    {
        let mut r: Vec<Subscription> = Vec::new();
        r.push(Subscription::NewTransactions);
        r.push(Subscription::BlocksAdded);
        r.push(Subscription::VirtualChain);
        if self.subscribed_addresses.len() > 0 {
            let addresses = self.subscribed_addresses.to_vec();
            r.push(Subscription::Utxos(addresses));
        }
        r
    }

    /// Decides the event loop's next step after `event`, with at most `max_attempts`
    /// failed connections in a row and a wait of `interval` between them.
    pub fn next_action(&mut self, event: LoopEvent, max_attempts: usize, interval: Interval) -> (a: LoopAction)
        requires
            old(self).failed_attempts <= max_attempts,
            event == LoopEvent::ConnectFailed ==> old(self).failed_attempts < max_attempts,
        ensures
            (a, final(self).failed_attempts as nat) == loop_step(
                event,
                old(self).running,
                old(self).failed_attempts as nat,
                max_attempts as nat,
                interval,
            ),
            final(self).running == old(self).running,
            final(self).subscribed_addresses.view() == old(self).subscribed_addresses.view(),
    {
        match event {
            LoopEvent::Connected => {
                self.failed_attempts = 0;
                LoopAction::Subscribe
            },
            LoopEvent::ConnectFailed => {
                self.failed_attempts = self.failed_attempts + 1;
                LoopAction::Sleep(interval)
            },
            LoopEvent::Subscribed | LoopEvent::MessageRead => {
                if self.running {
                    LoopAction::ReadNext
                } else {
                    LoopAction::Exit
                }
            },
            _ => {
                if self.running && self.failed_attempts < max_attempts {
                    LoopAction::Connect
                } else {
                    LoopAction::Exit
                }
            },
        }
    }
}

/// The loop only connects while the listener runs and fewer than `max_attempts`
/// connections in a row have failed, so a failed connection never takes the count
/// past `max_attempts`; and once the listener stops, every step but the two that
/// answer a connection attempt leaves the loop.
pub proof fn lemma_loop_bounded(event: LoopEvent, running: bool, failed: nat, max_attempts: nat, interval: Interval)
    requires
        failed <= max_attempts,
    ensures
        loop_step(event, running, failed, max_attempts, interval).0 == LoopAction::Connect ==> running && failed
            < max_attempts,
        event != LoopEvent::ConnectFailed ==> loop_step(event, running, failed, max_attempts, interval).1
            <= max_attempts,
        !running && event != LoopEvent::Connected && event != LoopEvent::ConnectFailed ==> loop_step(
            event,
            running,
            failed,
            max_attempts,
            interval,
        ).0 == LoopAction::Exit,
{
}

} // verus!
