//! Reception pipeline: a filterable, deadline-bounded consumer of the
//! node's broadcast channel of inbound events.
//!
//! The surrounding network layer publishes decoded `Update` events (an
//! observed RPC, a tick, or the final shutdown signal) on a broadcast
//! channel owned by the node's shared resources. A `Receptions` handle
//! subscribes to that channel and yields the observed RPCs that pass its
//! configured kind and sender filters, until its deadline or a shutdown
//! ends the sequence.

use vstd::prelude::*;
use crate::hash::SubotaiHash;
use crate::routing::{NodeInfo, id_in_list};
use crate::storage::StorageEntry;
use crate::clock::{monotonic_time_ns, duration_ns};

verus! {

#[verifier::external_type_specification]
#[verifier::external_body]
#[verifier::reject_recursive_types(T)]
pub struct ExBus<T>(bus::Bus<T>);

#[verifier::external_type_specification]
#[verifier::external_body]
#[verifier::reject_recursive_types(T)]
pub struct ExBusReader<T>(bus::BusReader<T>);

/// How long one bounded wait on the channel lasts when a deadline is set,
/// so the deadline is honored within a small slack.
const RECV_SLICE_MS: u64 = 25;

/// The kind of an RPC, with its payload.
#[derive(Debug, Clone)]
pub enum Kind {
    Ping,
    PingResponse,
    Store(StorageEntry),
    FindNode(SubotaiHash),
    FindNodeResponse(Vec<NodeInfo>),
    FindValue(SubotaiHash),
    FindValueResponse(StorageEntry),
    Bootstrap,
    BootstrapResponse(Vec<NodeInfo>),
}

/// An observed remote procedure call: who sent it, and what it carries.
#[derive(Debug, Clone)]
pub struct Rpc {
    pub sender_id: SubotaiHash,
    pub kind: Kind,
}

/// An event published by the network layer on the node's update channel.
#[derive(Debug, Clone)]
pub enum Update {
    RpcReceived(Rpc),
    Tick,
    Shutdown,
}

/// A filter selecting one RPC kind, payload disregarded.
#[derive(Debug, Clone, Copy, PartialEq, Eq, Structural)]
pub enum KindFilter {
    Ping,
    PingResponse,
    Store,
    FindNode,
    FindNodeResponse,
    FindValue,
    FindValueResponse,
    Bootstrap,
    BootstrapResponse,
}

/// Whether an RPC kind falls under a kind filter.
pub open spec fn spec_kind_matches(filter: KindFilter, kind: Kind) -> bool {
    match kind {
        Kind::Ping => filter == KindFilter::Ping,
        Kind::PingResponse => filter == KindFilter::PingResponse,
        Kind::Store(_) => filter == KindFilter::Store,
        Kind::FindNode(_) => filter == KindFilter::FindNode,
        Kind::FindNodeResponse(_) => filter == KindFilter::FindNodeResponse,
        Kind::FindValue(_) => filter == KindFilter::FindValue,
        Kind::FindValueResponse(_) => filter == KindFilter::FindValueResponse,
        Kind::Bootstrap => filter == KindFilter::Bootstrap,
        Kind::BootstrapResponse(_) => filter == KindFilter::BootstrapResponse,
    }
}

/// Decides whether an RPC kind falls under a kind filter.
pub fn kind_matches(filter: KindFilter, kind: &Kind) -> (r: bool)
    ensures
        r == spec_kind_matches(filter, *kind),
{
    match kind {
        Kind::Ping => filter == KindFilter::Ping,
        Kind::PingResponse => filter == KindFilter::PingResponse,
        Kind::Store(_) => filter == KindFilter::Store,
        Kind::FindNode(_) => filter == KindFilter::FindNode,
        Kind::FindNodeResponse(_) => filter == KindFilter::FindNodeResponse,
        Kind::FindValue(_) => filter == KindFilter::FindValue,
        Kind::FindValueResponse(_) => filter == KindFilter::FindValueResponse,
        Kind::Bootstrap => filter == KindFilter::Bootstrap,
        Kind::BootstrapResponse(_) => filter == KindFilter::BootstrapResponse,
    }
}

/// The identifier bits of a list of senders.
pub open spec fn ids_of(v: Seq<SubotaiHash>) -> Seq<Seq<bool>> {
    v.map_values(|h: SubotaiHash| h@)
}

/// Whether an RPC passes the configured kind and sender filters.
pub open spec fn spec_accepts(
    kind_filter: Option<KindFilter>,
    senders: Option<Seq<Seq<bool>>>,
    rpc: Rpc,
) -> bool {
    &&& (kind_filter matches Option::Some(f) ==> spec_kind_matches(f, rpc.kind))
    &&& (senders matches Option::Some(l) ==> id_in_list(l, rpc.sender_id@))
}

/// The node's shared fan-out primitive: the broadcast channel of inbound
/// update events.
pub struct Resources {
    updates: bus::Bus<Update>,
}

impl Resources {
    /// Creates the update channel with room for `capacity` in-flight
    /// events.
    pub fn new(capacity: usize) -> (r: Resources) {
        Resources { updates: bus_new(capacity) }
    }

    /// Publishes one event to every live subscriber.
    pub fn broadcast(&mut self, update: Update) {
        bus_broadcast(&mut self.updates, update);
    }
}

/// A blocking iterator over the RPCs received by a node, configurable
/// with a deadline, a kind filter and a sender filter.
pub struct Receptions {
    reader: bus::BusReader<Update>,
    deadline_ns: Option<u64>,
    kind_filter: Option<KindFilter>,
    sender_filter: Option<Vec<SubotaiHash>>,
    shutdown: bool,
}

impl Receptions {
    /// The configured kind filter.
    pub closed spec fn kind_filter_of(&self) -> Option<KindFilter> {
        self.kind_filter
    }

    /// The identifier bits of the configured sender filter.
    pub closed spec fn sender_ids(&self) -> Option<Seq<Seq<bool>>> {
        match self.sender_filter {
            Option::Some(v) => Option::Some(ids_of(v@)),
            Option::None => Option::None,
        }
    }

    /// The configured deadline, on the monotonic clock.
    pub closed spec fn deadline_of(&self) -> Option<u64> {
        self.deadline_ns
    }

    /// Whether a shutdown event has been observed.
    pub closed spec fn is_shutdown(&self) -> bool {
        self.shutdown
    }

    /// Subscribes to the node's update channel. The handle sees the
    /// events published after this call.
    pub fn new(resources: &mut Resources) -> (r: Receptions)
        ensures
            r.kind_filter_of() is None,
            r.sender_ids() is None,
            r.deadline_of() is None,
            !r.is_shutdown(),
    {
        Receptions {
            reader: bus_add_rx(&mut resources.updates),
            deadline_ns: None,
            kind_filter: None,
            sender_filter: None,
            shutdown: false,
        }
    }

    /// Restricts the iterator to a particular span of time from now.
    pub fn during(self, lifespan: time::Duration) -> (r: Receptions)
        ensures
            r.kind_filter_of() == self.kind_filter_of(),
            r.sender_ids() == self.sender_ids(),
            r.is_shutdown() == self.is_shutdown(),
            r.deadline_of() is Some,
    {
        let now = monotonic_time_ns();
        let ns: u64 = match duration_ns(&lifespan) {
            Some(v) => if v > 0 {
                v as u64
            } else {
                0
            },
            None => u64::MAX,
        };
        let deadline = if now <= u64::MAX - ns {
            now + ns
        } else {
            u64::MAX
        };
        Receptions {
            reader: self.reader,
            deadline_ns: Some(deadline),
            kind_filter: self.kind_filter,
            sender_filter: self.sender_filter,
            shutdown: self.shutdown,
        }
    }

    /// Only produces a particular RPC kind.
    pub fn of_kind(self, filter: KindFilter) -> (r: Receptions)
        ensures
            r.kind_filter_of() == Option::Some(filter),
            r.sender_ids() == self.sender_ids(),
            r.deadline_of() == self.deadline_of(),
            r.is_shutdown() == self.is_shutdown(),
    {
        Receptions {
            reader: self.reader,
            deadline_ns: self.deadline_ns,
            kind_filter: Some(filter),
            sender_filter: self.sender_filter,
            shutdown: self.shutdown,
        }
    }

    /// Only produces RPCs from one sender.
    pub fn from(self, sender: SubotaiHash) -> (r: Receptions)
        ensures
            r.sender_ids() matches Option::Some(l) && l =~= seq![sender@],
            r.kind_filter_of() == self.kind_filter_of(),
            r.deadline_of() == self.deadline_of(),
            r.is_shutdown() == self.is_shutdown(),
    {
        let ghost expected = seq![sender@];
        let senders = vec![sender];
        proof {
            assert(ids_of(senders@) =~= expected);
        }
        Receptions {
            reader: self.reader,
            deadline_ns: self.deadline_ns,
            kind_filter: self.kind_filter,
            sender_filter: Some(senders),
            shutdown: self.shutdown,
        }
    }

    /// Only produces RPCs from a set of senders.
    pub fn from_senders(self, senders: Vec<SubotaiHash>) -> (r: Receptions)
        ensures
            r.sender_ids() == Option::Some(ids_of(senders@)),
            r.kind_filter_of() == self.kind_filter_of(),
            r.deadline_of() == self.deadline_of(),
            r.is_shutdown() == self.is_shutdown(),
    {
        Receptions {
            reader: self.reader,
            deadline_ns: self.deadline_ns,
            kind_filter: self.kind_filter,
            sender_filter: Some(senders),
            shutdown: self.shutdown,
        }
    }

    /// Whether an RPC passes this handle's filters.
    fn passes(&self, rpc: &Rpc) -> (r: bool)
        ensures
            r == spec_accepts(self.kind_filter_of(), self.sender_ids(), *rpc),
    {
        match &self.kind_filter {
            Some(f) => {
                if !kind_matches(*f, &rpc.kind) {
                    return false;
                }
            },
            None => {},
        }
        match &self.sender_filter {
            Some(list) => sender_in_list(list, &rpc.sender_id),
            None => true,
        }
    }

    /// Applies one event to the handle, as one step of the iteration
    /// contract: a shutdown is recorded and yields nothing; a tick yields
    /// nothing; an observed RPC is yielded exactly when it passes the
    /// filters.
    pub fn offer(&mut self, update: Update) -> (r: Option<Rpc>)
        ensures
            final(self).kind_filter_of() == old(self).kind_filter_of(),
            final(self).sender_ids() == old(self).sender_ids(),
            final(self).deadline_of() == old(self).deadline_of(),
            r == offer_step(old(self).kind_filter_of(), old(self).sender_ids(), update),
            final(self).is_shutdown() == (old(self).is_shutdown() || (update is Shutdown)),
    {
        match update {
            Update::Shutdown => {
                self.shutdown = true;
                None
            },
            Update::Tick => None,
            Update::RpcReceived(rpc) => {
                if self.passes(&rpc) {
                    Some(rpc)
                } else {
                    None
                }
            },
        }
    }

    /// Blocks until the next RPC that passes the filters, the deadline,
    /// a shutdown event, or the channel closing, whichever comes first.
    pub fn next(&mut self) -> (r: Option<Rpc>)
        ensures
            final(self).kind_filter_of() == old(self).kind_filter_of(),
            final(self).sender_ids() == old(self).sender_ids(),
            final(self).deadline_of() == old(self).deadline_of(),
            (r matches Option::Some(rpc) ==> spec_accepts(
                old(self).kind_filter_of(),
                old(self).sender_ids(),
                rpc,
            )),
            // An observed shutdown is permanent and ends the iteration.
            old(self).is_shutdown() ==> r is None,
            old(self).is_shutdown() ==> final(self).is_shutdown(),
    {
        let mut fuel: u64 = u64::MAX;
        while fuel > 0
            invariant
                self.kind_filter_of() == old(self).kind_filter_of(),
                self.sender_ids() == old(self).sender_ids(),
                self.deadline_of() == old(self).deadline_of(),
                old(self).is_shutdown() ==> self.is_shutdown(),
            decreases fuel,
        {
            fuel -= 1;
            let deadline = match &self.deadline_ns {
                Some(d) => {
                    let now = monotonic_time_ns();
                    if now > *d {
                        return None;
                    }
                    true
                },
                None => false,
            };
            if self.shutdown {
                return None;
            }
            if deadline {
                match bus_recv_timeout_ms(&mut self.reader, RECV_SLICE_MS) {
                    RecvOutcome::Received(update) => {
                        let out = self.offer(update);
                        if out.is_some() {
                            return out;
                        }
                    },
                    RecvOutcome::TimedOut => {},
                    RecvOutcome::Disconnected => {
                        // A closed channel ends the iteration like a
                        // shutdown event.
                        self.shutdown = true;
                        return None;
                    },
                }
            } else {
                match bus_recv(&mut self.reader) {
                    Some(update) => {
                        let out = self.offer(update);
                        if out.is_some() {
                            return out;
                        }
                    },
                    None => {
                        self.shutdown = true;
                        return None;
                    },
                }
            }
        }
        None
    }

    /// Applies a finite, already-received stream of events in order, as
    /// the iteration would, and collects every yielded RPC.
    #[verifier::loop_isolation(false)]
    pub fn drain(&mut self, events: Vec<Update>) -> (r: Vec<Rpc>)
        requires
            !old(self).is_shutdown(),
        ensures
            final(self).kind_filter_of() == old(self).kind_filter_of(),
            final(self).sender_ids() == old(self).sender_ids(),
            final(self).deadline_of() == old(self).deadline_of(),
            r@ == yielded(events@, old(self).kind_filter_of(), old(self).sender_ids()),
    {
        let ghost kf = self.kind_filter_of();
        let ghost sf = self.sender_ids();
        let ghost events0 = events@;
        let mut events = events;
        let mut r: Vec<Rpc> = Vec::new();
        while events.len() > 0 && !self.shutdown
            invariant
                self.kind_filter_of() == kf,
                self.sender_ids() == sf,
                self.deadline_of() == old(self).deadline_of(),
                yielded(events0, kf, sf) == r@ + (if self.is_shutdown() {
                    Seq::<Rpc>::empty()
                } else {
                    yielded(events@, kf, sf)
                }),
            decreases events@.len(),
        {
            let ghost pre_events = events@;
            let ghost pre_r = r@;
            let update = events.remove(0);
            let ghost u = update;
            let out = self.offer(update);
            match out {
                Some(rpc) => {
                    r.push(rpc);
                    proof {
                        assert(yielded(pre_events, kf, sf) =~= seq![rpc] + yielded(
                            events@,
                            kf,
                            sf,
                        ));
                        assert(pre_r + yielded(pre_events, kf, sf) =~= r@ + yielded(
                            events@,
                            kf,
                            sf,
                        ));
                    }
                },
                None => {
                    proof {
                        if u is Shutdown {
                            assert(yielded(pre_events, kf, sf) =~= Seq::<Rpc>::empty());
                        } else {
                            assert(yielded(pre_events, kf, sf) =~= yielded(events@, kf, sf));
                        }
                    }
                },
            }
        }
        proof {
            if !self.is_shutdown() {
                assert(yielded(events@, kf, sf) =~= Seq::<Rpc>::empty());
                assert(r@ + Seq::<Rpc>::empty() =~= r@);
            } else {
                assert(r@ + Seq::<Rpc>::empty() =~= r@);
            }
        }
        r
    }
}

/// What one event contributes to the iteration: an RPC passing the
/// filters, and nothing otherwise.
pub open spec fn offer_step(
    kind_filter: Option<KindFilter>,
    senders: Option<Seq<Seq<bool>>>,
    update: Update,
) -> Option<Rpc> {
    match update {
        Update::RpcReceived(rpc) => if spec_accepts(kind_filter, senders, rpc) {
            Option::Some(rpc)
        } else {
            Option::None
        },
        Update::Tick => Option::None,
        Update::Shutdown => Option::None,
    }
}

/// The RPCs an iteration yields over a finite event stream: observed RPCs
/// that pass the filters, until the first shutdown event.
pub open spec fn yielded(
    events: Seq<Update>,
    kind_filter: Option<KindFilter>,
    senders: Option<Seq<Seq<bool>>>,
) -> Seq<Rpc>
    decreases events.len(),
{
    if events.len() == 0 {
        Seq::empty()
    } else {
        match events[0] {
            Update::Shutdown => Seq::empty(),
            Update::Tick => yielded(events.drop_first(), kind_filter, senders),
            Update::RpcReceived(rpc) => if spec_accepts(kind_filter, senders, rpc) {
                seq![rpc] + yielded(events.drop_first(), kind_filter, senders)
            } else {
                yielded(events.drop_first(), kind_filter, senders)
            },
        }
    }
}

/// The stream's RPCs that pass the filters, in order: the plain filter of
/// the input, with no shutdown handling.
pub open spec fn rpcs_passing(
    events: Seq<Update>,
    kind_filter: Option<KindFilter>,
    senders: Option<Seq<Seq<bool>>>,
) -> Seq<Rpc>
    decreases events.len(),
{
    if events.len() == 0 {
        Seq::empty()
    } else {
        let rest = rpcs_passing(events.drop_first(), kind_filter, senders);
        match events[0] {
            Update::RpcReceived(rpc) => if spec_accepts(kind_filter, senders, rpc) {
                seq![rpc] + rest
            } else {
                rest
            },
            Update::Tick => rest,
            Update::Shutdown => rest,
        }
    }
}

/// The index of the first shutdown event, or the stream's length.
pub open spec fn first_shutdown(events: Seq<Update>) -> int
    decreases events.len(),
{
    if events.len() == 0 {
        0
    } else if events[0] is Shutdown {
        0
    } else {
        1 + first_shutdown(events.drop_first())
    }
}

/// The first shutdown index lies within the stream.
pub proof fn lemma_first_shutdown_bounds(events: Seq<Update>)
    ensures
        0 <= first_shutdown(events) <= events.len(),
    decreases events.len(),
{
    if events.len() > 0 && !(events[0] is Shutdown) {
        lemma_first_shutdown_bounds(events.drop_first());
    }
}

/// Reception filtering law: over a finite event stream, the sequence of
/// RPCs the iteration yields equals the input's RPCs filtered by the
/// configured kind and sender predicates, truncated at the first
/// shutdown event.
pub proof fn lemma_reception_filtering(
    events: Seq<Update>,
    kind_filter: Option<KindFilter>,
    senders: Option<Seq<Seq<bool>>>,
)
    ensures
        yielded(events, kind_filter, senders) == rpcs_passing(
            events.take(first_shutdown(events)),
            kind_filter,
            senders,
        ),
    decreases events.len(),
{
    lemma_first_shutdown_bounds(events);
    if events.len() == 0 {
        assert(events.take(0) =~= Seq::<Update>::empty());
    } else if events[0] is Shutdown {
        assert(events.take(0) =~= Seq::<Update>::empty());
    } else {
        let rest = events.drop_first();
        lemma_first_shutdown_bounds(rest);
        lemma_reception_filtering(rest, kind_filter, senders);
        let fs = first_shutdown(events);
        let cut = events.take(fs);
        assert(cut.len() == fs > 0);
        assert(cut[0] == events[0]);
        assert(cut.drop_first() =~= rest.take(fs - 1));
        assert(yielded(events, kind_filter, senders) =~= rpcs_passing(
            cut,
            kind_filter,
            senders,
        ));
    }
}

/// The outcome of one bounded wait on the update channel.
enum RecvOutcome {
    Received(Update),
    TimedOut,
    Disconnected,
}

/// Relies on bus::Bus::new: allocates a broadcast channel whose ring
/// holds `capacity` in-flight events.
#[verifier::external_body]
fn bus_new(capacity: usize) -> bus::Bus<Update> {
    bus::Bus::new(capacity)
}

/// Relies on bus::Bus::add_rx: subscribes a reader that receives every
/// event broadcast after this call.
#[verifier::external_body]
fn bus_add_rx(b: &mut bus::Bus<Update>) -> bus::BusReader<Update> {
    b.add_rx()
}

/// Relies on bus::Bus::broadcast: delivers one event to every current
/// reader; blocks while the ring is full of unread events.
#[verifier::external_body]
fn bus_broadcast(b: &mut bus::Bus<Update>, update: Update) {
    b.broadcast(update)
}

/// Relies on bus::BusReader::recv: blocks for the next event; None once
/// the bus is dropped and drained.
#[verifier::external_body]
fn bus_recv(r: &mut bus::BusReader<Update>) -> Option<Update> {
    r.recv().ok()
}

/// Relies on bus::BusReader::recv_timeout: like recv, but gives up after
/// the given wait in milliseconds.
#[verifier::external_body]
fn bus_recv_timeout_ms(r: &mut bus::BusReader<Update>, ms: u64) -> RecvOutcome {
    match r.recv_timeout(std::time::Duration::from_millis(ms)) {
        Ok(update) => RecvOutcome::Received(update),
        Err(std::sync::mpsc::RecvTimeoutError::Timeout) => RecvOutcome::TimedOut,
        Err(std::sync::mpsc::RecvTimeoutError::Disconnected) => RecvOutcome::Disconnected,
    }
}

/// Whether the identifier occurs among the listed senders.
fn sender_in_list(list: &Vec<SubotaiHash>, id: &SubotaiHash) -> (r: bool)
    ensures
        r == id_in_list(ids_of(list@), id@),
{
    let ghost l = ids_of(list@);
    let n: usize = list.len();
    let mut k: usize = 0;
    while k < n
        invariant
            k <= n,
            n == list@.len(),
            l == ids_of(list@),
            forall|m: int| 0 <= m < k ==> l[m] != id@,
        decreases n - k,
    {
        if list[k] == *id {
            proof {
                assert(l[k as int] == id@);
            }
            return true;
        }
        k += 1;
    }
    proof {
        assert(!id_in_list(l, id@));
    }
    false
}

} // verus!
