//! The decisions of the sync worker and of the publisher that queues sales
//! for it: whether a run sends anything, where it sends it, what a failed
//! delivery is recorded as, and which publisher a sale goes to.
//!
//! The HTTP requests, the clock and the outbox storage live outside this
//! crate; they hand their results to the functions here.

use vstd::prelude::*;
use crate::backup_worker::{outcome_view, state_after_run, RunStateV};
use crate::models::Order;
use crate::text::push_str;

verus! {

/// The outcome of the last sync run, with the time it ran (RFC 3339).
#[derive(Clone, Debug)]
pub enum SyncState {
    NotRunYet,
    Successful { timestamp: String },
    Failed { timestamp: String, error: String },
}

impl View for SyncState {
    type V = RunStateV;

    open spec fn view(&self) -> RunStateV {
        match self {
            SyncState::NotRunYet => RunStateV::NotRunYet,
            SyncState::Successful { timestamp } => RunStateV::Successful { timestamp: timestamp@ },
            SyncState::Failed { timestamp, error } => RunStateV::Failed { timestamp: timestamp@, error: error@ },
        }
    }
}

/// The state recorded after a sync run that started at `timestamp`.
pub fn sync_state_after(outcome: Result<(), String>, timestamp: String) -> (r: SyncState)
    ensures
        r@ == state_after_run(outcome_view(outcome), timestamp@),
{
    match outcome {
        Ok(()) => SyncState::Successful { timestamp },
        Err(error) => SyncState::Failed { timestamp, error },
    }
}

/// How a sync run starts.
#[derive(Clone, Copy, Debug, PartialEq, Eq, Structural)]
pub enum SyncStart {
    /// Sync is disabled: the run succeeds without sending anything.
    Disabled,
    /// Nothing waits in the outbox: the run succeeds without sending.
    NothingPending,
    /// Send the pending entries, oldest first.
    Send,
}

/// A sync run sends only when sync is enabled and entries are pending.
pub fn sync_start(enabled: bool, pending: usize) -> (r: SyncStart)
    ensures
        !enabled ==> r == SyncStart::Disabled,
        enabled && pending == 0 ==> r == SyncStart::NothingPending,
        enabled && pending > 0 ==> r == SyncStart::Send,
{
    if !enabled {
        SyncStart::Disabled
    } else if pending == 0 {
        SyncStart::NothingPending
    } else {
        SyncStart::Send
    }
}

/// `s` without its trailing slashes.
pub open spec fn trim_trailing_slashes(s: Seq<char>) -> Seq<char>
    decreases s.len(),
{
    if s.len() > 0 && s.last() == '/' {
        trim_trailing_slashes(s.drop_last())
    } else {
        s
    }
}

/// The address to which outbox entries are posted: the central API's base
/// address without trailing slashes, then `/sync/outbox`.
pub fn sync_outbox_uri(base: &str) -> (r: String)
    ensures
        r@ == trim_trailing_slashes(base@) + "/sync/outbox"@,
{
    let n = base.unicode_len();
    let mut k: usize = n;
    assert(base@.take(n as int) =~= base@);
    while k > 0 && base.get_char(k - 1) == '/'
        invariant
            0 <= k <= n,
            n == base@.len(),
            trim_trailing_slashes(base@) == trim_trailing_slashes(base@.take(k as int)),
        decreases k,
    {
        proof {
            assert(base@.take(k as int).drop_last() =~= base@.take(k - 1));
        }
        k = k - 1;
    }
    proof {
        assert(base@.take(k as int) =~= base@.subrange(0, k as int));
    }
    let head = base.substring_char(0, k);
    let mut r = String::new();
    push_str(&mut r, head);
    push_str(&mut r, "/sync/outbox");
    r
}

/// How a refused delivery is recorded: the response's status and body.
pub open spec fn delivery_error_text(status: Seq<char>, body: Seq<char>) -> Seq<char> {
    "status="@ + status + " body="@ + body
}

/// What delivering one outbox entry comes to: an accepted entry is marked
/// sent and the run goes on; a refused one is marked failed with the
/// status and body of the response, and the run stops with that error.
pub fn delivery_outcome(success: bool, status: &str, body: &str) -> (r: Result<(), String>)
    ensures
        success ==> r is Ok,
        !success ==> (r matches Err(e) && e@ == delivery_error_text(status@, body@)),
{
    if success {
        Ok(())
    } else {
        let mut e = String::new();
        push_str(&mut e, "status=");
        push_str(&mut e, status);
        push_str(&mut e, " body=");
        push_str(&mut e, body);
        Err(e)
    }
}

/// The event type under which a sale is queued.
pub open spec fn sale_created_event_type_text() -> Seq<char> {
    "sale.created"@
}

/// The event type under which a sale is queued.
pub fn sale_created_event_type() -> (r: String)
    ensures
        r@ == sale_created_event_type_text(),
{
    String::from_str("sale.created")
}

/// What is queued for a sale: the order.
#[derive(Clone, Debug)]
pub struct SaleCreatedPayload {
    pub order: Order,
}

/// Something a completed sale is handed to.
pub trait SyncPublisher {
    /// Hands a completed sale over; an error means it was not queued.
    fn publish_sale_created(&self, order: &Order) -> (r: Result<(), String>);
}

/// The publisher used while sync is disabled: it accepts every sale and
/// does nothing with it.
pub struct NoopPublisher;

impl SyncPublisher for NoopPublisher {
    fn publish_sale_created(&self, order: &Order) -> (r: Result<(), String>)
        ensures
            r is Ok,
    {
        Ok(())
    }
}

/// Which publisher a sale goes to.
#[derive(Clone, Copy, Debug, PartialEq, Eq, Structural)]
pub enum PublisherChoice {
    /// The publisher that does nothing.
    Noop,
    /// The publisher that queues the sale in the outbox.
    Outbox,
}

/// Routes sales to the outbox while sync is enabled, and nowhere while it
/// is disabled.
pub struct SyncRouter {
    pub enabled: bool,
}

impl SyncRouter {
    /// A router with sync disabled.
    pub fn new_disabled() -> (r: SyncRouter)
        ensures
            !r.enabled,
    {
        SyncRouter { enabled: false }
    }

    /// Switches sync on or off.
    pub fn set_enabled(&mut self, enabled: bool)
        ensures
            final(self).enabled == enabled,
    {
        self.enabled = enabled;
    }

    /// The publisher sales currently go to.
    pub fn publisher(&self) -> (r: PublisherChoice)
        ensures
            self.enabled ==> r == PublisherChoice::Outbox,
            !self.enabled ==> r == PublisherChoice::Noop,
    {
        if self.enabled {
            PublisherChoice::Outbox
        } else {
            PublisherChoice::Noop
        }
    }
}

} // verus!
