//! The feeder: it takes candidates from a producer and hands them to the
//! workers over a bounded channel, until a worker reports the password,
//! the producer has nothing left, or no worker is left.
//!
//! A run goes through these phases. While feeding, the feeder looks for a
//! reported password, takes a candidate from the producer and hands it to
//! the workers, again and again. While draining, it has given up its end of
//! the channel of candidates and waits for the workers to report or to end.
//! Then the run is over, with the password or without.
//!
//! The workers run on threads of their own. What they do, and when, is not
//! known here: the feeder's contract says what holds of the producer
//! whatever the workers did.

use vstd::prelude::*;
use crossbeam::channel::Receiver;
use crossbeam::channel::Sender;
use crossbeam::channel::TryRecvError;
use crate::producer::Producer;

verus! {

/// The number of candidates that the channel to the workers holds at most.
pub const BUFFER_SIZE: usize = 200;

/// `crossbeam::channel::Sender`, the sending end of a channel. Nothing is
/// known of what is inside.
#[verifier::external_type_specification]
#[verifier::external_body]
#[verifier::reject_recursive_types(T)]
pub struct ExSender<T>(Sender<T>);

/// `crossbeam::channel::Receiver`, the receiving end of a channel. Nothing
/// is known of what is inside.
#[verifier::external_type_specification]
#[verifier::external_body]
#[verifier::reject_recursive_types(T)]
pub struct ExReceiver<T>(Receiver<T>);

/// The number of messages that the channel behind `sender` holds at most,
/// as `crossbeam::channel::bounded` was told when it made the channel.
pub uninterp spec fn capacity_of(sender: Sender<Vec<u8>>) -> nat;

/// What a look into the channel of successes found.
pub enum Polled {
    /// A worker has reported the password.
    Found(Vec<u8>),
    /// Nothing has been reported yet.
    Empty,
    /// Nothing has been reported, and no worker is left that could.
    Disconnected,
}

/// `crossbeam::channel::bounded`: a channel that holds at most `cap`
/// messages; a sender blocks while it is full. Capacities so large that
/// the channel cannot be set up are left out.
#[verifier::external_body]
fn bounded_channel(cap: usize) -> (ends: (Sender<Vec<u8>>, Receiver<Vec<u8>>))
    requires
        cap <= 0xffff,
    ensures
        capacity_of(ends.0) == cap,
{
    crossbeam::channel::bounded(cap)
}

/// `crossbeam::channel::unbounded`: a channel without a bound. Nothing is
/// claimed of it.
#[verifier::external_body]
fn unbounded_channel() -> (ends: (Sender<Vec<u8>>, Receiver<Vec<u8>>)) {
    crossbeam::channel::unbounded()
}

/// `Receiver::try_recv`: takes a message if one is there, without
/// waiting. What comes back depends on the other threads, so nothing is
/// claimed of it.
#[verifier::external_body]
fn poll(successes: &Receiver<Vec<u8>>) -> Polled {
    match successes.try_recv() {
        Ok(password) => Polled::Found(password),
        Err(TryRecvError::Empty) => Polled::Empty,
        Err(TryRecvError::Disconnected) => Polled::Disconnected,
    }
}

/// `Sender::send`: hands a message to the channel, waiting while the
/// channel is full. `false` where no receiver is left.
#[verifier::external_body]
fn send(candidates: &Sender<Vec<u8>>, candidate: Vec<u8>) -> bool {
    candidates.send(candidate).is_ok()
}

/// `Receiver::recv`: waits for a message; `None` once the channel is empty
/// and no sender is left.
#[verifier::external_body]
fn wait(successes: &Receiver<Vec<u8>>) -> Option<Vec<u8>> {
    successes.recv().ok()
}

/// Why the feeder stopped taking candidates from the producer.
#[derive(Debug, Clone, Copy, PartialEq, Eq)]
pub enum Stop {
    /// A worker reported the password.
    Found,
    /// No worker was left.
    WorkersGone,
    /// The producer had nothing left.
    Exhausted,
    /// The producer failed.
    ProducerFailed,
}

/// What the feeder does after a look into the channel of successes.
pub enum Decision {
    /// Nothing was heard yet: go on feeding, with the next candidate.
    Continue,
    /// Stop feeding and drain: hand out no more candidates, and wait for
    /// what is still to be reported.
    Drain(Stop),
    /// The password is known: the run is over.
    Finish(Vec<u8>),
}

/// What the feeder does with what the producer gave.
pub enum Pulled {
    /// Go on feeding: hand the candidate to the workers.
    Dispatch(Vec<u8>),
    /// Stop feeding and drain: hand out no more candidates, and wait for
    /// what is still to be reported.
    Drain(Stop),
}

/// How a run ended.
pub struct Outcome {
    /// The password, if a worker found it.
    pub found: Option<Vec<u8>>,
    /// Why no more candidates were handed out.
    pub stop: Stop,
    /// The number of candidates that were handed out; the largest machine
    /// word where there were more.
    pub handed_out: usize,
}

/// The ends of the two channels of a run.
pub struct Channels {
    /// The feeder's end of the channel of candidates.
    pub candidates: Sender<Vec<u8>>,
    /// The workers' end of the channel of candidates.
    pub work: Receiver<Vec<u8>>,
    /// The workers' end of the channel of successes.
    pub reports: Sender<Vec<u8>>,
    /// The feeder's end of the channel of successes.
    pub successes: Receiver<Vec<u8>>,
}

/// Opens the channels of a run: one for candidates, which holds at most
/// `BUFFER_SIZE` of them, and one without a bound for successes.
pub fn open_channels() -> (channels: Channels)
    ensures
        capacity_of(channels.candidates) == BUFFER_SIZE,
{
    let (candidates, work) = bounded_channel(BUFFER_SIZE);
    let (reports, successes) = unbounded_channel();
    Channels { candidates, work, reports, successes }
}

/// The feeder's step after a look into the channel of successes: a
/// reported password ends the run at once; with no worker left there is
/// nobody to hand candidates to.
pub fn after_poll(polled: Polled) -> (decision: Decision)
    ensures
        decision == match polled {
            Polled::Found(password) => Decision::Finish(password),
            Polled::Empty => Decision::Continue,
            Polled::Disconnected => Decision::Drain(Stop::WorkersGone),
        },
{
    match polled {
        Polled::Found(password) => Decision::Finish(password),
        Polled::Empty => Decision::Continue,
        Polled::Disconnected => Decision::Drain(Stop::WorkersGone),
    }
}

/// The feeder's step after a call of the producer: a candidate goes to the
/// workers; exhaustion and failure both end the handing out.
pub fn after_next(produced: Result<Option<Vec<u8>>, String>) -> (pulled: Pulled)
    ensures
        pulled == match produced {
            Ok(Some(candidate)) => Pulled::Dispatch(candidate),
            Ok(None) => Pulled::Drain(Stop::Exhausted),
            Err(_) => Pulled::Drain(Stop::ProducerFailed),
        },
{
    match produced {
        Ok(Some(candidate)) => Pulled::Dispatch(candidate),
        Ok(None) => Pulled::Drain(Stop::Exhausted),
        Err(_) => Pulled::Drain(Stop::ProducerFailed),
    }
}

/// The result of a run: the password that ended the handing out, else
/// what was reported while the feeder waited for the workers to end.
pub fn conclude(
    stop: Stop,
    handed_out: usize,
    early: Option<Vec<u8>>,
    late: Option<Vec<u8>>,
) -> (outcome: Outcome)
    ensures
        outcome.stop == stop,
        outcome.handed_out == handed_out,
        outcome.found == if early is Some {
            early
        } else {
            late
        },
{
    let found = match early {
        Some(password) => Some(password),
        None => late,
    };
    Outcome { found, stop, handed_out }
}

/// Gives up the feeder's end of the channel of candidates, so that workers
/// that wait for a candidate see that none will come.
fn hang_up(candidates: Sender<Vec<u8>>) {
}

/// How far a producer has come: `after` is what is left of `before` once
/// `count` candidates were taken from its head. A count that has reached
/// the largest machine word stands for that many or more.
pub open spec fn advanced(before: Seq<Seq<u8>>, after: Seq<Seq<u8>>, count: usize) -> bool {
    if count < usize::MAX {
        count <= before.len() && after == before.skip(count as int)
    } else {
        exists|k: int| count <= k <= before.len() && after == before.skip(k)
    }
}

/// A producer that has nothing left after `count` candidates had `count`
/// candidates: a feeder that stops for exhaustion has handed out the whole
/// search space.
pub proof fn lemma_exhausted_is_all(before: Seq<Seq<u8>>, after: Seq<Seq<u8>>, count: usize)
    requires
        advanced(before, after, count),
        after.len() == 0,
        count < usize::MAX,
    ensures
        count == before.len(),
{
}

/// Hands the candidates of `producer` to the workers, until a worker has
/// reported the password, no worker is left, or the producer has nothing
/// left or fails. Returns why it stopped, how many candidates it handed
/// out, and the password if that is why it stopped.
fn hand_out<P: Producer, F: Fn()>(
    producer: &mut P,
    candidates: &Sender<Vec<u8>>,
    successes: &Receiver<Vec<u8>>,
    callback: &F,
) -> (r: (Stop, usize, Option<Vec<u8>>))
    requires
        old(producer).wf(),
        callback.requires(()),
    ensures
        final(producer).wf(),
        r.0 is Found <==> r.2 is Some,
        r.0 is Exhausted ==> final(producer).pending().len() == 0,
        !(r.0 is ProducerFailed) ==> advanced(
            old(producer).pending(),
            final(producer).pending(),
            r.1,
        ),
        final(producer).pending().len() <= old(producer).pending().len(),
{
    let ghost start = producer.pending();
    let ghost mut taken: int = 0;
    let mut count: usize = 0;
    assert(start.skip(0) =~= start);
    loop
        invariant
            producer.wf(),
            callback.requires(()),
            start == old(producer).pending(),
            0 <= taken <= start.len(),
            producer.pending() == start.skip(taken),
            count == if taken < usize::MAX {
                taken
            } else {
                usize::MAX as int
            },
        decreases producer.pending().len(),
    {
        match after_poll(poll(successes)) {
            Decision::Finish(password) => {
                return (Stop::Found, count, Some(password));
            },
            Decision::Drain(stop) => {
                return (stop, count, None);
            },
            Decision::Continue => {},
        }
        let ghost before = producer.pending();
        match after_next(producer.next()) {
            Pulled::Dispatch(candidate) => {
                send(candidates, candidate);
                callback();
                count = count.saturating_add(1);
                proof {
                    assert(before.drop_first() =~= start.skip(taken + 1));
                    taken = taken + 1;
                }
            },
            Pulled::Drain(stop) => {
                proof {
                    if stop is Exhausted {
                        assert(producer.pending() =~= start.skip(taken));
                    }
                }
                return (stop, count, None);
            },
        }
    }
}

/// Runs the feeder: hands the candidates of `producer` to the workers,
/// calling `callback` after each one, then gives up the channel of
/// candidates and, unless the password is known already, waits for the
/// workers to report it or to end.
///
/// Whatever the workers do, the producer is asked for its candidates in
/// order and for none twice; where the feeder stops for exhaustion, every
/// candidate has been handed out.
pub fn feed<P: Producer, F: Fn()>(
    producer: &mut P,
    candidates: Sender<Vec<u8>>,
    successes: &Receiver<Vec<u8>>,
    callback: &F,
) -> (outcome: Outcome)
    requires
        old(producer).wf(),
        callback.requires(()),
    ensures
        final(producer).wf(),
        outcome.stop is Found ==> outcome.found is Some,
        outcome.stop is Exhausted ==> final(producer).pending().len() == 0,
        !(outcome.stop is ProducerFailed) ==> advanced(
            old(producer).pending(),
            final(producer).pending(),
            outcome.handed_out,
        ),
        final(producer).pending().len() <= old(producer).pending().len(),
{
    let (stop, handed_out, early) = hand_out(producer, &candidates, successes, callback);
    hang_up(candidates);
    let late: Option<Vec<u8>> = match early {
        Some(_) => None,
        None => wait(successes),
    };
    conclude(stop, handed_out, early, late)
}

} // verus!
