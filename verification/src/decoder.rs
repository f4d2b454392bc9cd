//! The queues between the slideshow and the threads that decode pictures.
//!
//! Requests for pictures on display and requests for pictures ahead of it go
//! through queues of their own, so that the workers can take the first kind
//! first. Each request carries the epoch of the play order it was made for; a
//! worker drops a request of another epoch than the one last announced.

use crate::image_loader::{DecodeError, DecodedImage, FileFingerprint, Picture};
use crate::{DISPLAY_QUEUE_CAPACITY, PREFETCH_QUEUE_CAPACITY, RESULT_QUEUE_CAPACITY};
use crossbeam_channel::{Receiver, Sender, TrySendError};
use std::sync::atomic::{AtomicU64, Ordering};
use std::sync::Arc;
use vstd::prelude::*;

verus! {

/// `crossbeam_channel::Sender`, the end of a queue that messages go into.
#[verifier::external_type_specification]
#[verifier::external_body]
#[verifier::reject_recursive_types(T)]
pub struct ExSender<T>(Sender<T>);

/// `crossbeam_channel::Receiver`, the end of a queue that messages come from.
#[verifier::external_type_specification]
#[verifier::external_body]
#[verifier::reject_recursive_types(T)]
pub struct ExReceiver<T>(Receiver<T>);

/// The requests that were offered through a sender, in order, with whether each
/// was taken into the queue.
pub uninterp spec fn offered(queue: Sender<DecodeRequest>) -> Seq<(Request, bool)>;

/// What came when results were asked for through a receiver, in order: a
/// result, or nothing.
pub uninterp spec fn received(queue: Receiver<DecodeResult>) -> Seq<Option<Answer>>;

/// How many requests fit into the queue that a sender puts into.
pub uninterp spec fn request_capacity(queue: Sender<DecodeRequest>) -> nat;

/// How many requests fit into the queue that a receiver takes from.
pub uninterp spec fn request_room(queue: Receiver<DecodeRequest>) -> nat;

/// How many results fit into the queue that a receiver takes from.
pub uninterp spec fn result_capacity(queue: Receiver<DecodeResult>) -> nat;

/// How many results fit into the queue that a sender puts into.
pub uninterp spec fn result_room(queue: Sender<DecodeResult>) -> nat;

/// The channel that a sender puts requests into, as `Sender::same_channel`
/// tells channels apart.
pub uninterp spec fn request_channel(queue: Sender<DecodeRequest>) -> int;

/// The channel that a receiver takes requests from.
pub uninterp spec fn request_source(queue: Receiver<DecodeRequest>) -> int;

/// The channel that a receiver takes results from, as `Receiver::same_channel`
/// tells channels apart.
pub uninterp spec fn result_channel(queue: Receiver<DecodeResult>) -> int;

/// The channel that a sender puts results into.
pub uninterp spec fn result_target(queue: Sender<DecodeResult>) -> int;

/// What was last stored through a handle of a cell, or through the handle that
/// it was made from, or else what the cell was made with.
pub uninterp spec fn last_stored(cell: AtomicU64) -> u64;

/// Which cell it is that handles share.
pub uninterp spec fn cell_id(cell: AtomicU64) -> int;

/// A picture to decode.
pub struct DecodeRequest {
    pub path: String,
    /// The epoch of the play order when the request was made.
    pub epoch: u64,
    /// The file as it was when the request was made.
    pub fingerprint: Option<FileFingerprint>,
}

/// What became of a request.
pub enum DecodeOutcome {
    Decoded(DecodedImage),
    Failed,
    Missing,
    /// The picture is larger than the limits.
    Oversized { w: u32, h: u32 },
}

/// A worker's answer to a request.
pub struct DecodeResult {
    pub path: String,
    pub epoch: u64,
    pub fingerprint: Option<FileFingerprint>,
    pub outcome: DecodeOutcome,
}

/// Why a request was not taken. The request comes back.
pub enum SendRejected {
    Full(DecodeRequest),
    Disconnected(DecodeRequest),
}

/// What a [`DecodeRequest`] holds.
pub struct Request {
    pub path: Seq<char>,
    pub epoch: u64,
    pub fingerprint: Option<FileFingerprint>,
}

/// What a [`DecodeOutcome`] holds.
pub enum Outcome {
    Decoded(Picture),
    Failed,
    Missing,
    Oversized { w: u32, h: u32 },
}

/// What a [`DecodeResult`] holds.
pub struct Answer {
    pub path: Seq<char>,
    pub epoch: u64,
    pub fingerprint: Option<FileFingerprint>,
    pub outcome: Outcome,
}

/// A queue for requests, as the slideshow knows it.
#[verifier::ext_equal]
pub struct Line {
    /// What was offered to the queue, with whether it was taken.
    pub offered: Seq<(Request, bool)>,
    pub capacity: nat,
    pub channel: int,
}

/// The queue for results, as the slideshow knows it.
#[verifier::ext_equal]
pub struct Returns {
    /// What came, each time that a result was asked for.
    pub received: Seq<Option<Answer>>,
    pub capacity: nat,
    pub channel: int,
}

/// What a [`DecoderPool`] holds.
#[verifier::ext_equal]
pub struct Pool {
    /// The queues have not been closed.
    pub open: bool,
    /// The queue for pictures on display.
    pub display: Line,
    /// The queue for pictures ahead of it.
    pub prefetch: Line,
    pub results: Returns,
    /// The epoch that was announced last.
    pub epoch: u64,
    /// The cell in which epochs are announced.
    pub cell: int,
}

impl Line {
    pub open spec fn none() -> Line {
        Line { offered: Seq::empty(), capacity: 0, channel: 0 }
    }

    /// One more request was offered.
    pub open spec fn with(self, request: Request, taken: bool) -> Line {
        Line { offered: self.offered.push((request, taken)), ..self }
    }
}

impl Pool {
    /// A pool without queues.
    pub open spec fn closed(epoch: u64, cell: int) -> Pool {
        Pool {
            open: false,
            display: Line::none(),
            prefetch: Line::none(),
            results: Returns { received: Seq::empty(), capacity: 0, channel: 0 },
            epoch,
            cell,
        }
    }

    /// A request was offered to the queue for pictures on display, if there is
    /// one.
    pub open spec fn with_display(self, request: Request, taken: bool) -> Pool {
        if self.open {
            Pool { display: self.display.with(request, taken), ..self }
        } else {
            self
        }
    }

    /// A request was offered to the queue for pictures ahead of the display, if
    /// there is one.
    pub open spec fn with_prefetch(self, request: Request, taken: bool) -> Pool {
        if self.open {
            Pool { prefetch: self.prefetch.with(request, taken), ..self }
        } else {
            self
        }
    }

    /// Results were asked for, if there is a queue for them.
    pub open spec fn with_received(self, came: Seq<Option<Answer>>) -> Pool {
        if self.open {
            Pool {
                results: Returns { received: self.results.received + came, ..self.results },
                ..self
            }
        } else {
            self
        }
    }

    /// An epoch was announced.
    pub open spec fn with_epoch(self, epoch: u64) -> Pool {
        Pool { epoch, ..self }
    }
}

impl View for DecodeOutcome {
    type V = Outcome;

    open spec fn view(&self) -> Outcome {
        match self {
            DecodeOutcome::Decoded(image) => Outcome::Decoded(image@),
            DecodeOutcome::Failed => Outcome::Failed,
            DecodeOutcome::Missing => Outcome::Missing,
            DecodeOutcome::Oversized { w, h } => Outcome::Oversized { w: *w, h: *h },
        }
    }
}

impl View for DecodeResult {
    type V = Answer;

    open spec fn view(&self) -> Answer {
        Answer {
            path: self.path@,
            epoch: self.epoch,
            fingerprint: self.fingerprint,
            outcome: self.outcome@,
        }
    }
}

/// What a result holds, if there is one.
pub open spec fn answer_of(result: Option<DecodeResult>) -> Option<Answer> {
    match result {
        Some(result) => Some(result@),
        None => None,
    }
}

impl View for DecodeRequest {
    type V = Request;

    open spec fn view(&self) -> Request {
        Request { path: self.path@, epoch: self.epoch, fingerprint: self.fingerprint }
    }
}

impl SendRejected {
    /// The request that was not taken.
    pub open spec fn request(self) -> DecodeRequest {
        match self {
            SendRejected::Full(request) => request,
            SendRejected::Disconnected(request) => request,
        }
    }
}

/// The outcome that an attempt to decode stands for.
pub open spec fn outcome_of(attempt: Result<DecodedImage, DecodeError>) -> DecodeOutcome {
    match attempt {
        Ok(image) => DecodeOutcome::Decoded(image),
        Err(DecodeError::Missing) => DecodeOutcome::Missing,
        Err(DecodeError::Failed) => DecodeOutcome::Failed,
        Err(DecodeError::Oversized { w, h }) => DecodeOutcome::Oversized { w, h },
    }
}

impl From<Result<DecodedImage, DecodeError>> for DecodeOutcome {
    fn from(attempt: Result<DecodedImage, DecodeError>) -> (outcome: Self) {
        match attempt {
            Ok(image) => DecodeOutcome::Decoded(image),
            Err(DecodeError::Missing) => DecodeOutcome::Missing,
            Err(DecodeError::Failed) => DecodeOutcome::Failed,
            Err(DecodeError::Oversized { w, h }) => DecodeOutcome::Oversized { w, h },
        }
    }
}

impl vstd::std_specs::convert::FromSpecImpl<Result<DecodedImage, DecodeError>> for DecodeOutcome {
    open spec fn obeys_from_spec() -> bool {
        true
    }

    open spec fn from_spec(attempt: Result<DecodedImage, DecodeError>) -> Self {
        outcome_of(attempt)
    }
}

impl DecodeRequest {
    /// Whether the request is still wanted, so that a worker should decode it.
    pub fn is_current(&self, announced: u64) -> (current: bool)
        ensures
            current == (self.epoch == announced),
    {
        self.epoch == announced
    }

    /// The answer to this request.
    pub fn answer(self, outcome: DecodeOutcome) -> (result: DecodeResult)
        ensures
            result.path@ == self.path@,
            result.epoch == self.epoch,
            result.fingerprint == self.fingerprint,
            result.outcome == outcome,
    {
        DecodeResult { path: self.path, epoch: self.epoch, fingerprint: self.fingerprint, outcome }
    }
}

/// How many worker threads there are, by the number asked for, or 0, and by the
/// machine's cores, where they are known.
pub open spec fn worker_count(requested: usize, cores: Option<usize>) -> int {
    let spare = (match cores {
        Some(n) => n as int,
        None => 2,
    }) - 1;
    if requested > 0 {
        requested as int
    } else if spare < 1 {
        1
    } else if spare > 4 {
        4
    } else {
        spare
    }
}

/// The number of worker threads: the one asked for, or one less than the
/// machine's cores, between 1 and 4.
pub fn resolve_worker_count(requested: usize, cores: Option<usize>) -> (count: usize)
    ensures
        count == worker_count(requested, cores),
{
    if requested > 0 {
        return requested;
    }
    let cores: usize = match cores {
        Some(n) => n,
        None => 2,
    };
    let spare: usize = if cores > 0 {
        cores - 1
    } else {
        0
    };
    if spare < 1 {
        1
    } else if spare > 4 {
        4
    } else {
        spare
    }
}

/// `crossbeam_channel::bounded` for requests: both ends of one new channel of
/// the given capacity, through which nothing has gone.
#[verifier::external_body]
fn request_queue(capacity: usize) -> (ends: (Sender<DecodeRequest>, Receiver<DecodeRequest>))
    ensures
        offered(ends.0) == Seq::<(Request, bool)>::empty(),
        request_capacity(ends.0) == capacity,
        request_room(ends.1) == capacity,
        request_channel(ends.0) == request_source(ends.1),
{
    crossbeam_channel::bounded(capacity)
}

/// `crossbeam_channel::bounded` for results: both ends of one new channel of the
/// given capacity, through which nothing has gone.
#[verifier::external_body]
fn result_queue(capacity: usize) -> (ends: (Sender<DecodeResult>, Receiver<DecodeResult>))
    ensures
        received(ends.1) == Seq::<Option<Answer>>::empty(),
        result_capacity(ends.1) == capacity,
        result_room(ends.0) == capacity,
        result_channel(ends.1) == result_target(ends.0),
{
    crossbeam_channel::bounded(capacity)
}

/// `crossbeam_channel::Sender::try_send`, which does not wait: the request is
/// offered to the channel of the sender, once. One that is not taken comes back
/// as it was. Whether it is taken depends on what the receivers have done, so
/// nothing is said of that.
#[verifier::external_body]
fn send_request(queue: &mut Sender<DecodeRequest>, request: DecodeRequest) -> (sent: Result<
    (),
    SendRejected,
>)
    ensures
        offered(*final(queue)) == offered(*old(queue)).push((request@, sent is Ok)),
        request_capacity(*final(queue)) == request_capacity(*old(queue)),
        request_channel(*final(queue)) == request_channel(*old(queue)),
        sent matches Err(rejected) ==> rejected.request() == request,
{
    match queue.try_send(request) {
        Ok(()) => Ok(()),
        Err(TrySendError::Full(back)) => Err(SendRejected::Full(back)),
        Err(TrySendError::Disconnected(back)) => Err(SendRejected::Disconnected(back)),
    }
}

/// `crossbeam_channel::Receiver::try_recv`, which does not wait: the channel of
/// the receiver is asked for a result, once, and what it gives is handed on.
/// Which result comes, and whether one does, depends on what the senders have
/// done, so nothing is said of that.
#[verifier::external_body]
fn receive_result(queue: &mut Receiver<DecodeResult>) -> (result: Option<DecodeResult>)
    ensures
        received(*final(queue)) == received(*old(queue)).push(answer_of(result)),
        result_capacity(*final(queue)) == result_capacity(*old(queue)),
        result_channel(*final(queue)) == result_channel(*old(queue)),
{
    queue.try_recv().ok()
}

/// `std::sync::atomic::AtomicU64::new`: a cell that holds the number.
#[verifier::external_body]
fn new_cell(number: u64) -> (cell: AtomicU64)
    ensures
        last_stored(cell) == number,
{
    AtomicU64::new(number)
}

/// `std::sync::Arc::clone`: another handle of the same cell.
#[verifier::external_body]
fn share_cell(cell: &Arc<AtomicU64>) -> (shared: Arc<AtomicU64>)
    ensures
        cell_id(*shared) == cell_id(**cell),
        last_stored(*shared) == last_stored(**cell),
{
    Arc::clone(cell)
}

/// `std::sync::atomic::AtomicU64::store`: the number is stored in the cell of
/// the handle.
#[verifier::external_body]
fn store_in(cell: &mut Arc<AtomicU64>, number: u64)
    ensures
        last_stored(**final(cell)) == number,
        cell_id(**final(cell)) == cell_id(**old(cell)),
{
    cell.store(number, Ordering::SeqCst)
}

/// The slideshow's ends of the queues, while they are open.
struct PoolEnds {
    tx_priority: Sender<DecodeRequest>,
    tx_prefetch: Sender<DecodeRequest>,
    rx_res: Receiver<DecodeResult>,
}

/// The slideshow's side of the workers.
pub struct DecoderPool {
    ends: Option<PoolEnds>,
    current_epoch: Arc<AtomicU64>,
}

/// The workers' ends of the queues.
pub struct WorkerEnds {
    pub rx_priority: Receiver<DecodeRequest>,
    pub rx_prefetch: Receiver<DecodeRequest>,
    pub tx_res: Sender<DecodeResult>,
    pub current_epoch: Arc<AtomicU64>,
}

spec fn line_of(queue: Sender<DecodeRequest>) -> Line {
    Line {
        offered: offered(queue),
        capacity: request_capacity(queue),
        channel: request_channel(queue),
    }
}

impl View for DecoderPool {
    type V = Pool;

    closed spec fn view(&self) -> Pool {
        let epoch = last_stored(*self.current_epoch);
        let cell = cell_id(*self.current_epoch);
        match self.ends {
            Some(ends) => Pool {
                open: true,
                display: line_of(ends.tx_priority),
                prefetch: line_of(ends.tx_prefetch),
                results: Returns {
                    received: received(ends.rx_res),
                    capacity: result_capacity(ends.rx_res),
                    channel: result_channel(ends.rx_res),
                },
                epoch,
                cell,
            },
            None => Pool::closed(epoch, cell),
        }
    }
}

impl DecoderPool {
    /// A pool with empty queues, and the ends of the same queues that go to the
    /// workers.
    pub fn new() -> (ends: (Self, WorkerEnds))
        ensures
            ends.0@ == (Pool {
                open: true,
                display: Line {
                    offered: Seq::empty(),
                    capacity: DISPLAY_QUEUE_CAPACITY as nat,
                    channel: request_source(ends.1.rx_priority),
                },
                prefetch: Line {
                    offered: Seq::empty(),
                    capacity: PREFETCH_QUEUE_CAPACITY as nat,
                    channel: request_source(ends.1.rx_prefetch),
                },
                results: Returns {
                    received: Seq::empty(),
                    capacity: RESULT_QUEUE_CAPACITY as nat,
                    channel: result_target(ends.1.tx_res),
                },
                epoch: 0,
                cell: cell_id(*ends.1.current_epoch),
            }),
            request_room(ends.1.rx_priority) == DISPLAY_QUEUE_CAPACITY,
            request_room(ends.1.rx_prefetch) == PREFETCH_QUEUE_CAPACITY,
            result_room(ends.1.tx_res) == RESULT_QUEUE_CAPACITY,
            last_stored(*ends.1.current_epoch) == 0,
    {
        let (tx_priority, rx_priority) = request_queue(DISPLAY_QUEUE_CAPACITY);
        let (tx_prefetch, rx_prefetch) = request_queue(PREFETCH_QUEUE_CAPACITY);
        let (tx_res, rx_res) = result_queue(RESULT_QUEUE_CAPACITY);
        let current_epoch = Arc::new(new_cell(0));
        let pool = Self {
            ends: Some(PoolEnds { tx_priority, tx_prefetch, rx_res }),
            current_epoch: share_cell(&current_epoch),
        };
        (pool, WorkerEnds { rx_priority, rx_prefetch, tx_res, current_epoch })
    }

    /// Asks for a picture that is on display. Does not wait for room.
    pub fn request_display(&mut self, request: DecodeRequest) -> (sent: Result<(), SendRejected>)
        ensures
            final(self)@ == old(self)@.with_display(request@, sent is Ok),
            sent matches Err(rejected) ==> rejected.request() == request,
            !old(self)@.open ==> sent == Err::<(), SendRejected>(
                SendRejected::Disconnected(request),
            ),
    {
        match &mut self.ends {
            Some(ends) => send_request(&mut ends.tx_priority, request),
            None => Err(SendRejected::Disconnected(request)),
        }
    }

    /// Asks for a picture ahead of the display. Does not wait for room.
    pub fn request_prefetch(&mut self, request: DecodeRequest) -> (sent: Result<(), SendRejected>)
        ensures
            final(self)@ == old(self)@.with_prefetch(request@, sent is Ok),
            sent matches Err(rejected) ==> rejected.request() == request,
            !old(self)@.open ==> sent == Err::<(), SendRejected>(
                SendRejected::Disconnected(request),
            ),
    {
        match &mut self.ends {
            Some(ends) => send_request(&mut ends.tx_prefetch, request),
            None => Err(SendRejected::Disconnected(request)),
        }
    }

    /// One result, if there is one now. Does not wait for one.
    pub fn try_recv(&mut self) -> (result: Option<DecodeResult>)
        ensures
            final(self)@ == old(self)@.with_received(seq![answer_of(result)]),
            !old(self)@.open ==> result is None,
    {
        match &mut self.ends {
            Some(ends) => receive_result(&mut ends.rx_res),
            None => None,
        }
    }

    /// Announces the epoch whose requests are to be decoded.
    pub fn set_epoch(&mut self, epoch: u64)
        ensures
            final(self)@ == old(self)@.with_epoch(epoch),
    {
        store_in(&mut self.current_epoch, epoch);
    }

    /// Closes the queues, which makes the workers stop.
    pub fn close(&mut self)
        ensures
            final(self)@ == Pool::closed(old(self)@.epoch, old(self)@.cell),
    {
        self.ends = None;
    }
}

} // verus!
