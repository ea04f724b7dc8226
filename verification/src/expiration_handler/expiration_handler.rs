//! The expiration service: a queue of orders by the time at which they
//! expire, and the cancellations it sends to the engine when they do.

use super::{ExpirationOrderRequest, InsertExpirationRequest, UnixTimestamp};
use crate::channel::{send, try_receive, Received};
use crate::orderbook::OrderId;
use crate::web_server::{CancelRequestType, OrderRequest};
use crossbeam::channel::{Receiver, Sender};
use priority_queue::PriorityQueue;
use std::cmp::Reverse;
use vstd::prelude::*;

verus! {

/// The priority queue of the `priority-queue` crate, carried as it is.
#[verifier::external_type_specification]
#[verifier::external_body]
#[verifier::reject_recursive_types(I)]
#[verifier::reject_recursive_types(P)]
#[verifier::reject_recursive_types(H)]
pub struct ExPriorityQueue<I, P, H>(PriorityQueue<I, P, H>);

/// The order-reversing wrapper of the standard library, carried as it is.
#[verifier::external_type_specification]
#[verifier::external_body]
#[verifier::reject_recursive_types(T)]
pub struct ExReverse<T>(Reverse<T>);

/// The queue of expirations: orders by the time at which they expire, the
/// earliest at the root.
pub type ExpirationQueue = PriorityQueue<OrderId, Reverse<UnixTimestamp>>;

/// What an expiration queue holds: for each order in it, the time at which
/// the order expires.
pub uninterp spec fn queue_entries(queue: ExpirationQueue) -> Map<OrderId, UnixTimestamp>;

/// `entry` expires no later than anything in `entries`, and is one of them.
pub open spec fn is_earliest(
    entries: Map<OrderId, UnixTimestamp>,
    entry: (OrderId, UnixTimestamp),
) -> bool {
    &&& entries.contains_key(entry.0)
    &&& entries[entry.0] == entry.1
    &&& forall|id: OrderId| #[trigger] entries.contains_key(id) ==> entry.1 <= entries[id]
}

/// No entries.
pub open spec fn no_entries() -> Map<OrderId, UnixTimestamp> {
    Map::empty()
}

/// Makes a queue with `PriorityQueue::new`: it holds nothing.
#[verifier::external_body]
fn queue_new() -> (created: ExpirationQueue)
    ensures
        queue_entries(created) == no_entries(),
{
    PriorityQueue::new()
}

/// Calls `PriorityQueue::push` with the time in reversed order: the order
/// is in the queue afterwards with this time, whether or not it was there
/// before, and nothing else changes.
#[verifier::external_body]
fn queue_push(queue: &mut ExpirationQueue, order_id: OrderId, timestamp: UnixTimestamp)
    ensures
        queue_entries(*final(queue)) == queue_entries(*old(queue)).insert(order_id, timestamp),
{
    queue.push(order_id, Reverse(timestamp));
}

/// Calls `PriorityQueue::get_priority`: the time of the order, if the
/// queue holds it.
#[verifier::external_body]
fn queue_get_priority(queue: &ExpirationQueue, order_id: OrderId) -> (timestamp: Option<
    UnixTimestamp,
>)
    ensures
        timestamp == (if queue_entries(*queue).contains_key(order_id) {
            Some(queue_entries(*queue)[order_id])
        } else {
            None
        }),
{
    queue.get_priority(&order_id).map(|reversed| reversed.0)
}

/// Calls `PriorityQueue::remove`: the order is not in the queue afterwards,
/// and nothing else changes. Returns the entry that left, if there was one.
#[verifier::external_body]
fn queue_remove(queue: &mut ExpirationQueue, order_id: OrderId) -> (removed: Option<
    (OrderId, UnixTimestamp),
>)
    ensures
        queue_entries(*final(queue)) == queue_entries(*old(queue)).remove(order_id),
        removed == (if queue_entries(*old(queue)).contains_key(order_id) {
            Some((order_id, queue_entries(*old(queue))[order_id]))
        } else {
            None
        }),
{
    queue.remove(&order_id).map(|entry| (entry.0, entry.1.0))
}

/// Calls `PriorityQueue::peek`: an entry of the greatest priority, that is
/// of the earliest time, or `None` if the queue holds nothing. Which of
/// several entries of the same time comes is left open.
#[verifier::external_body]
fn queue_peek(queue: &ExpirationQueue) -> (root: Option<(OrderId, UnixTimestamp)>)
    ensures
        match root {
            Some(entry) => is_earliest(queue_entries(*queue), entry),
            None => queue_entries(*queue) == no_entries(),
        },
{
    queue.peek().map(|entry| (*entry.0, entry.1.0))
}

/// Calls `PriorityQueue::pop`: takes out an entry of the greatest priority,
/// that is of the earliest time, and returns it; `None`, and no change, if
/// the queue holds nothing. Which of several entries of the same time
/// leaves is left open.
#[verifier::external_body]
fn queue_pop(queue: &mut ExpirationQueue) -> (root: Option<(OrderId, UnixTimestamp)>)
    ensures
        match root {
            Some(entry) => is_earliest(queue_entries(*old(queue)), entry) && queue_entries(
                *final(queue),
            ) == queue_entries(*old(queue)).remove(entry.0),
            None => queue_entries(*old(queue)) == no_entries() && queue_entries(*final(queue))
                == queue_entries(*old(queue)),
        },
{
    queue.pop().map(|entry| (entry.0, entry.1.0))
}

/// Calls `PriorityQueue::len`: the number of entries.
#[verifier::external_body]
fn queue_len(queue: &ExpirationQueue) -> (len: usize)
    ensures
        len == queue_entries(*queue).len(),
{
    queue.len()
}

/// Reads the clock with `chrono::Utc::now` and gives the time in whole
/// seconds since the Unix epoch. Nothing is claimed of the value.
#[verifier::external_body]
fn unix_now() -> UnixTimestamp {
    chrono::Utc::now().timestamp()
}

/// Why the expiration service did not do what it was asked.
#[derive(Clone, Copy, Debug, PartialEq, Eq, Structural)]
pub enum ExpirationError {
    /// The order would expire before now.
    TimestampInPast,
    /// The engine's queue did not take the cancellation.
    SendFailed,
}

/// The expiration service.
pub struct ExpirationHandler {
    cancellation_request_sender: Sender<OrderRequest>,
    expiration_order_request_reciever: Receiver<ExpirationOrderRequest>,
    expiration_queue: ExpirationQueue,
}

/// The entries that are due at `now`: those that expire at `now` or before.
pub open spec fn due(entries: Map<OrderId, UnixTimestamp>, now: UnixTimestamp) -> Map<
    OrderId,
    UnixTimestamp,
> {
    Map::new(
        |id: OrderId| entries.contains_key(id) && entries[id] <= now,
        |id: OrderId| entries[id],
    )
}

/// The entries that are not due at `now`: those that expire after it.
pub open spec fn pending(entries: Map<OrderId, UnixTimestamp>, now: UnixTimestamp) -> Map<
    OrderId,
    UnixTimestamp,
> {
    Map::new(
        |id: OrderId| entries.contains_key(id) && entries[id] > now,
        |id: OrderId| entries[id],
    )
}

/// The entries after a request was served at `now`: an expiration is
/// recorded unless its time is before `now`, or forgotten; without a
/// request nothing changes.
pub open spec fn served(
    entries: Map<OrderId, UnixTimestamp>,
    request: Option<ExpirationOrderRequest>,
    now: UnixTimestamp,
) -> Map<OrderId, UnixTimestamp> {
    match request {
        Some(ExpirationOrderRequest::InsertExpirationRequest(insert)) => {
            if insert.timestamp < now {
                entries
            } else {
                entries.insert(insert.order_id, insert.timestamp)
            }
        },
        Some(ExpirationOrderRequest::RemoveExpirationRequest(order_id)) => entries.remove(order_id),
        None => entries,
    }
}

/// What recording an expiration at the time `now` reports: the time of the
/// expiration may not be before `now`.
pub open spec fn insertion_outcome(
    request: InsertExpirationRequest,
    now: UnixTimestamp,
) -> Result<(), ExpirationError> {
    if request.timestamp < now {
        Err(ExpirationError::TimestampInPast)
    } else {
        Ok(())
    }
}

/// `after` and `result` are what recording the expiration at the time `now`
/// makes of the entries `before`.
pub open spec fn is_insertion(
    before: Map<OrderId, UnixTimestamp>,
    request: InsertExpirationRequest,
    now: UnixTimestamp,
    after: Map<OrderId, UnixTimestamp>,
    result: Result<(), ExpirationError>,
) -> bool {
    &&& result == insertion_outcome(request, now)
    &&& after == served(
        before,
        Some(ExpirationOrderRequest::InsertExpirationRequest(request)),
        now,
    )
}

/// The request that a round serves, given what the queue gave.
pub open spec fn request_of(received: Received<ExpirationOrderRequest>) -> Option<
    ExpirationOrderRequest,
> {
    match received {
        Received::Message(request) => Some(request),
        Received::Empty => None,
        Received::Closed => None,
    }
}

/// What one round of the service did.
#[derive(Debug)]
pub struct Round {
    /// The orders for which a cancellation was sent, in the order of
    /// sending.
    pub fired: Vec<OrderId>,
    /// Whether a request was served.
    pub served: bool,
    /// Whether the queue of requests is closed, so that no request will
    /// come any more.
    pub closed: bool,
}

/// `after` and `round` are what one round makes of the entries `before`,
/// given what the queue gave and the time `now`.
pub open spec fn is_run(
    before: Map<OrderId, UnixTimestamp>,
    received: Received<ExpirationOrderRequest>,
    now: UnixTimestamp,
    after: Map<OrderId, UnixTimestamp>,
    round: Round,
) -> bool {
    &&& is_round(before, request_of(received), now, after, round.fired@)
    &&& round.served == (received is Message)
    &&& round.closed == (received is Closed)
}

/// `after` and `fired` are what one round at the time `now` makes of the
/// entries `before`: the request, if there is one, is served, and what is
/// due then is taken out and fired, the earliest first.
pub open spec fn is_round(
    before: Map<OrderId, UnixTimestamp>,
    request: Option<ExpirationOrderRequest>,
    now: UnixTimestamp,
    after: Map<OrderId, UnixTimestamp>,
    fired: Seq<OrderId>,
) -> bool {
    &&& after == pending(served(before, request, now), now)
    &&& fires_in_order(served(before, request, now), now, fired)
}

/// `fired` lists the entries of `entries` that are due at `now`, each once,
/// an earlier time before a later one.
pub open spec fn fires_in_order(
    entries: Map<OrderId, UnixTimestamp>,
    now: UnixTimestamp,
    fired: Seq<OrderId>,
) -> bool {
    &&& fired.no_duplicates()
    &&& forall|id: OrderId| fired.contains(id) <==> #[trigger] due(entries, now).contains_key(id)
    &&& forall|i: int, j: int|
        0 <= i < j < fired.len() ==> entries[#[trigger] fired[i]] <= entries[#[trigger] fired[j]]
}

impl View for ExpirationHandler {
    type V = Map<OrderId, UnixTimestamp>;

    closed spec fn view(&self) -> Map<OrderId, UnixTimestamp> {
        queue_entries(self.expiration_queue)
    }
}

impl ExpirationHandler {
    /// The service holds finitely many expirations.
    pub open spec fn wf(&self) -> bool {
        self@.dom().finite()
    }

    /// The channel on which the service sends its cancellations.
    pub closed spec fn cancellations(&self) -> Sender<OrderRequest> {
        self.cancellation_request_sender
    }

    /// The queue from which the service takes its requests.
    pub closed spec fn requests(&self) -> Receiver<ExpirationOrderRequest> {
        self.expiration_order_request_reciever
    }

    /// The service sends on the channel and reads from the queue of
    /// `before`.
    pub open spec fn same_channels(&self, before: &Self) -> bool {
        self.cancellations() == before.cancellations() && self.requests() == before.requests()
    }

    /// A service without expirations that reads its requests from
    /// `expiration_order_request_reciever` and sends its cancellations on
    /// `cancellation_request_sender`.
    pub fn new(
        cancellation_request_sender: Sender<OrderRequest>,
        expiration_order_request_reciever: Receiver<ExpirationOrderRequest>,
    ) -> (handler: Self)
        ensures
            handler.wf(),
            handler@ == no_entries(),
            handler.cancellations() == cancellation_request_sender,
            handler.requests() == expiration_order_request_reciever,
    {
        Self {
            cancellation_request_sender,
            expiration_order_request_reciever,
            expiration_queue: queue_new(),
        }
    }

    /// Forgets the expiration of the order, if there is one.
    pub fn remove_expiration_request(&mut self, order_id: OrderId)
        requires
            old(self).wf(),
        ensures
            final(self).wf(),
            final(self).same_channels(old(self)),
            final(self)@ == old(self)@.remove(order_id),
    {
        if queue_get_priority(&self.expiration_queue, order_id).is_some() {
            queue_remove(&mut self.expiration_queue, order_id);
        } else {
            assert(self@ =~= old(self)@.remove(order_id));
        }
    }

    /// Records the expiration, unless its time is before `now`. An order
    /// that has an expiration already gets the new time.
    pub fn insert_expiring_order_at(
        &mut self,
        order_expiration_request: InsertExpirationRequest,
        now: UnixTimestamp,
    ) -> (result: Result<(), ExpirationError>)
        requires
            old(self).wf(),
        ensures
            final(self).wf(),
            final(self).same_channels(old(self)),
            order_expiration_request.timestamp < now ==> result == Err::<(), ExpirationError>(
                ExpirationError::TimestampInPast,
            ) && final(self)@ == old(self)@,
            order_expiration_request.timestamp >= now ==> result == Ok::<(), ExpirationError>(())
                && final(self)@ == old(self)@.insert(
                order_expiration_request.order_id,
                order_expiration_request.timestamp,
            ),
    {
        if order_expiration_request.timestamp < now {
            return Err(ExpirationError::TimestampInPast);
        }
        queue_push(
            &mut self.expiration_queue,
            order_expiration_request.order_id,
            order_expiration_request.timestamp,
        );
        Ok(())
    }

    /// Records the expiration, unless its time is before the present one,
    /// which is read from the clock. What the time is lies with the clock;
    /// whatever it is, the outcome is that of `insert_expiring_order_at`
    /// for it. An expiration at the latest time there is, which is before
    /// no reading of the clock, is always recorded.
    pub fn insert_expiring_order(
        &mut self,
        order_expiration_request: InsertExpirationRequest,
    ) -> (result: Result<(), ExpirationError>)
        requires
            old(self).wf(),
        ensures
            final(self).wf(),
            final(self).same_channels(old(self)),
            exists|now: UnixTimestamp|
                is_insertion(old(self)@, order_expiration_request, now, final(self)@, result),
            order_expiration_request.timestamp == UnixTimestamp::MAX ==> result is Ok,
    {
        let now = unix_now();
        let result = self.insert_expiring_order_at(order_expiration_request, now);
        assert(is_insertion(old(self)@, order_expiration_request, now, self@, result));
        result
    }

    /// What sending a cancellation reports, given whether the engine's
    /// queue took it.
    pub fn send_outcome(sent: bool) -> (result: Result<(), ExpirationError>)
        ensures
            result == (if sent {
                Ok::<(), ExpirationError>(())
            } else {
                Err::<(), ExpirationError>(ExpirationError::SendFailed)
            }),
    {
        if sent {
            Ok(())
        } else {
            Err(ExpirationError::SendFailed)
        }
    }

    /// The request that cancels the order on behalf of the service.
    pub fn cancellation_of(order_id: OrderId) -> (request: OrderRequest)
        ensures
            request == OrderRequest::Cancel(CancelRequestType::Internal, order_id),
    {
        OrderRequest::Cancel(CancelRequestType::Internal, order_id)
    }

    /// Sends the engine an internal cancellation of the order. The
    /// expirations are left as they are, whatever becomes of the message.
    pub fn send_cancellation_request(&mut self, order_id: OrderId) -> (result: Result<
        (),
        ExpirationError,
    >)
        ensures
            *final(self) == *old(self),
            result matches Err(error) ==> error == ExpirationError::SendFailed,
    {
        let order_request = Self::cancellation_of(order_id);
        let sent = send(&self.cancellation_request_sender, order_request);
        Self::send_outcome(sent)
    }

    /// Takes out every expiration that is due at `now`, the earliest first,
    /// and sends the engine a cancellation for each, in that order. Returns
    /// the orders for which it did so. A cancellation that the engine's
    /// queue does not take is not sent again.
    pub fn expire_due(&mut self, now: UnixTimestamp) -> (fired: Vec<OrderId>)
        requires
            old(self).wf(),
        ensures
            final(self).wf(),
            final(self).same_channels(old(self)),
            final(self)@ == pending(old(self)@, now),
            fires_in_order(old(self)@, now, fired@),
    {
        let ghost entries = self@;
        let mut fired: Vec<OrderId> = Vec::new();
        let mut more = true;
        while more
            invariant
                self.wf(),
                self.same_channels(old(self)),
                entries.dom().finite(),
                fired@.no_duplicates(),
                forall|id: OrderId| #[trigger]
                    self@.contains_key(id) ==> entries.contains_key(id) && self@[id] == entries[id],
                forall|id: OrderId| #[trigger]
                    entries.contains_key(id) ==> (self@.contains_key(id) != fired@.contains(id)),
                forall|k: int|
                    0 <= k < fired.len() ==> entries.contains_key(#[trigger] fired@[k])
                        && entries[fired@[k]] <= now,
                forall|k: int, id: OrderId|
                    0 <= k < fired.len() && #[trigger] self@.contains_key(id) ==> entries[
                    #[trigger] fired@[k]] <= entries[id],
                forall|i: int, j: int|
                    0 <= i < j < fired.len() ==> entries[#[trigger] fired@[i]] <= entries[
                    #[trigger] fired@[j]],
                !more ==> forall|id: OrderId| #[trigger] self@.contains_key(id) ==> self@[id] > now,
            decreases self@.len() + (if more { 1int } else { 0int }),
        {
            let ghost before = self@;
            let ghost fired_before = fired@;
            match queue_peek(&self.expiration_queue) {
                Some(root) => {
                    if root.1 <= now {
                        match queue_pop(&mut self.expiration_queue) {
                            Some(entry) => {
                                let _ = self.send_cancellation_request(entry.0);
                                fired.push(entry.0);
                                proof {
                                    assert(before.contains_key(entry.0));
                                    assert(entry.1 <= root.1);
                                    assert(self@.dom() =~= before.dom().remove(entry.0));
                                    assert forall|id: OrderId| #[trigger]
                                        entries.contains_key(id) implies (self@.contains_key(id)
                                        != fired@.contains(id)) by {
                                        if id == entry.0 {
                                            assert(fired@[fired_before.len() as int] == id);
                                        } else if fired_before.contains(id) {
                                            let w = choose|w: int|
                                                0 <= w < fired_before.len() && fired_before[w]
                                                    == id;
                                            assert(fired@[w] == id);
                                        } else if fired@.contains(id) {
                                            let w = choose|w: int|
                                                0 <= w < fired@.len() && fired@[w] == id;
                                            assert(fired_before[w] == id);
                                        }
                                    }
                                    assert forall|i: int, j: int|
                                        0 <= i < fired@.len() && 0 <= j < fired@.len() && i
                                            != j implies fired@[i] != fired@[j] by {
                                        if i == fired_before.len() {
                                            assert(fired_before[j] == fired@[j]);
                                        } else if j == fired_before.len() {
                                            assert(fired_before[i] == fired@[i]);
                                        }
                                    }
                                    assert forall|k: int, id: OrderId|
                                        0 <= k < fired.len() && #[trigger] self@.contains_key(
                                            id,
                                        ) implies entries[#[trigger] fired@[k]] <= entries[id] by {
                                        assert(before.contains_key(id));
                                        if k < fired_before.len() {
                                            assert(fired@[k] == fired_before[k]);
                                        }
                                    }
                                    assert forall|i: int, j: int|
                                        0 <= i < j < fired.len() implies entries[
                                    #[trigger] fired@[i]] <= entries[#[trigger] fired@[j]] by {
                                        assert(fired@[i] == fired_before[i]);
                                        if j < fired_before.len() {
                                            assert(fired@[j] == fired_before[j]);
                                        }
                                    }
                                }
                            },
                            None => {
                                more = false;
                            },
                        }
                    } else {
                        more = false;
                    }
                },
                None => {
                    more = false;
                },
            }
        }
        proof {
            assert(self@ =~= pending(entries, now)) by {
                assert forall|id: OrderId| pending(entries, now).contains_key(id) implies #[trigger] self@.contains_key(
                    id,
                ) by {
                    if fired@.contains(id) {
                        let w = choose|w: int| 0 <= w < fired@.len() && fired@[w] == id;
                        assert(entries[fired@[w]] <= now);
                    }
                }
            }
            assert forall|id: OrderId| fired@.contains(id) <==> #[trigger] due(
                entries,
                now,
            ).contains_key(id) by {
                if fired@.contains(id) {
                    let w = choose|w: int| 0 <= w < fired@.len() && fired@[w] == id;
                    assert(entries[fired@[w]] <= now);
                }
                if due(entries, now).contains_key(id) {
                    assert(entries.contains_key(id));
                }
            }
        }
        fired
    }

    /// Serves one request at the time `now`: records an expiration, unless
    /// its time is before `now`, or forgets one.
    pub fn serve_at(&mut self, request: ExpirationOrderRequest, now: UnixTimestamp)
        requires
            old(self).wf(),
        ensures
            final(self).wf(),
            final(self).same_channels(old(self)),
            final(self)@ == served(old(self)@, Some(request), now),
    {
        match request {
            ExpirationOrderRequest::InsertExpirationRequest(insert_expiration_request) => {
                let _ = self.insert_expiring_order_at(insert_expiration_request, now);
            },
            ExpirationOrderRequest::RemoveExpirationRequest(order_id) => {
                self.remove_expiration_request(order_id)
            },
        }
    }

    /// One round of the service at the time `now`: serves the request, if
    /// there is one, then fires what is due. Returns the orders for which a
    /// cancellation was sent, in the order of sending.
    pub fn round_at(
        &mut self,
        request: Option<ExpirationOrderRequest>,
        now: UnixTimestamp,
    ) -> (fired: Vec<OrderId>)
        requires
            old(self).wf(),
        ensures
            final(self).wf(),
            final(self).same_channels(old(self)),
            final(self)@ == pending(served(old(self)@, request, now), now),
            fires_in_order(served(old(self)@, request, now), now, fired@),
    {
        if let Some(expiration_order_request) = request {
            self.serve_at(expiration_order_request, now);
        }
        self.expire_due(now)
    }

    /// One round of the service at the time `now`, given what the queue of
    /// requests gave: serves the request, if one came, then fires what is
    /// due. Says which orders fired, whether a request was served, and
    /// whether the queue is closed.
    pub fn round_for(
        &mut self,
        received: Received<ExpirationOrderRequest>,
        now: UnixTimestamp,
    ) -> (round: Round)
        requires
            old(self).wf(),
        ensures
            final(self).wf(),
            final(self).same_channels(old(self)),
            is_run(old(self)@, received, now, final(self)@, round),
    {
        match received {
            Received::Message(request) => {
                let fired = self.round_at(Some(request), now);
                Round { fired, served: true, closed: false }
            },
            Received::Empty => {
                let fired = self.round_at(None, now);
                Round { fired, served: false, closed: false }
            },
            Received::Closed => {
                let fired = self.round_at(None, now);
                Round { fired, served: false, closed: true }
            },
        }
    }

    /// One round of the service: asks the queue for the next request,
    /// reads the clock, and does the round for both. What the queue gives
    /// and what the time is lies with the queue and the clock; whatever
    /// they are, the round is that of `round_for` for them.
    pub fn run_once(&mut self) -> (round: Round)
        requires
            old(self).wf(),
        ensures
            final(self).wf(),
            final(self).same_channels(old(self)),
            exists|received: Received<ExpirationOrderRequest>, now: UnixTimestamp|
                is_run(old(self)@, received, now, final(self)@, round),
    {
        let received = try_receive(&self.expiration_order_request_reciever);
        let now = unix_now();
        let round = self.round_for(received, now);
        assert(is_run(old(self)@, received, now, self@, round));
        round
    }

    /// The number of expirations.
    pub fn len(&self) -> (len: usize)
        ensures
            len == self@.len(),
    {
        queue_len(&self.expiration_queue)
    }

    /// Whether there is no expiration.
    pub fn is_empty(&self) -> (empty: bool)
        requires
            self.wf(),
        ensures
            empty == (self@ == no_entries()),
    {
        let empty = queue_len(&self.expiration_queue) == 0;
        proof {
            if empty {
                assert(self@.dom().len() == 0);
                assert(self@.dom() =~= Set::empty());
                assert(self@ =~= no_entries());
            }
        }
        empty
    }

    /// Takes out an expiration of the earliest time, without sending
    /// anything.
    pub fn pop(&mut self) -> (root: Option<(OrderId, UnixTimestamp)>)
        requires
            old(self).wf(),
        ensures
            final(self).wf(),
            final(self).same_channels(old(self)),
            match root {
                Some(entry) => is_earliest(old(self)@, entry) && final(self)@ == old(self)@.remove(
                    entry.0,
                ),
                None => old(self)@ == no_entries() && final(self)@ == old(
                    self,
                )@,
            },
    {
        queue_pop(&mut self.expiration_queue)
    }
}

} // verus!
