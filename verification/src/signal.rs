//! The stop signal of a group: one one-shot channel per listener, all of
//! them completed at once when the group is told to stop.

use futures::channel::oneshot;
use vstd::prelude::*;

verus! {

/// The sending half of a `futures` one-shot channel.
#[verifier::external_type_specification]
#[verifier::external_body]
#[verifier::reject_recursive_types(T)]
pub struct ExOneshotSender<T>(oneshot::Sender<T>);

/// The receiving half of a `futures` one-shot channel.
#[verifier::external_type_specification]
#[verifier::external_body]
#[verifier::reject_recursive_types(T)]
pub struct ExOneshotReceiver<T>(oneshot::Receiver<T>);

/// The error a `futures` one-shot receiver yields when its sender is gone.
/// The receiver's `Future` impl names it as its output, so the receiver
/// cannot be declared without it.
#[verifier::external_type_specification]
#[verifier::external_body]
pub struct ExOneshotCanceled(oneshot::Canceled);

/// Whether `tx` and `rx` are the two ends of one `futures` one-shot channel:
/// what is sent on `tx` arrives at `rx`, and `rx` learns when `tx` is gone.
pub uninterp spec fn linked(tx: oneshot::Sender<()>, rx: oneshot::Receiver<()>) -> bool;

/// Calls `futures::channel::oneshot::channel`, which returns a sender and
/// the receiver of the same channel (both hold the one shared state the call
/// allocates). That pairing is all that is claimed: what passes through the
/// channel later depends on whoever holds the receiver.
#[verifier::external_body]
fn open_channel() -> (pair: (oneshot::Sender<()>, oneshot::Receiver<()>))
    ensures
        linked(pair.0, pair.1),
{
    oneshot::channel()
}

/// Calls `futures::channel::oneshot::Sender::send` with `()`, which completes
/// the channel; the `Err` it returns when the receiver is already gone is
/// dropped. Nothing is claimed: whether the receiver is still there depends
/// on another task.
#[verifier::external_body]
fn send_stop(tx: oneshot::Sender<()>) {
    let _ = tx.send(());
}

/// The senders of every listener created since the last stop.
pub struct StopSignal {
    txs: Vec<oneshot::Sender<()>>,
}

impl StopSignal {
    /// How many listeners are still waiting for a stop.
    pub closed spec fn pending(&self) -> nat {
        self.txs@.len()
    }

    /// Whether `rx` is the receiver of a listener still waiting for a stop:
    /// the signal holds the sender of its channel.
    pub closed spec fn listens(&self, rx: oneshot::Receiver<()>) -> bool {
        exists|i: int| 0 <= i < self.txs@.len() && #[trigger] linked(self.txs@[i], rx)
    }

    /// A signal with no listener.
    pub fn new() -> (signal: Self)
        ensures
            signal.pending() == 0,
            forall|rx: oneshot::Receiver<()>| !#[trigger] signal.listens(rx),
    {
        StopSignal { txs: Vec::new() }
    }

    /// Registers a new listener and returns the receiver on which its stop
    /// will arrive; the listeners already waiting keep waiting.
    pub fn subscribe(&mut self) -> (rx: oneshot::Receiver<()>)
        ensures
            final(self).pending() == old(self).pending() + 1,
            final(self).listens(rx),
            forall|r: oneshot::Receiver<()>| #[trigger]
                old(self).listens(r) ==> final(self).listens(r),
    {
        let (tx, rx) = open_channel();
        let ghost before = self.txs@;
        self.txs.push(tx);
        assert(self.txs@[before.len() as int] == tx);
        assert forall|r: oneshot::Receiver<()>| #[trigger] old(self).listens(r) implies self.listens(
            r,
        ) by {
            let i = choose|i: int| 0 <= i < before.len() && #[trigger] linked(before[i], r);
            assert(self.txs@[i] == before[i]);
        }
        rx
    }

    /// Sends the stop to every waiting listener and forgets them; returns
    /// how many were sent.
    pub fn emit(&mut self) -> (sent: usize)
        ensures
            final(self).pending() == 0,
            forall|rx: oneshot::Receiver<()>| !#[trigger] final(self).listens(rx),
            sent == old(self).pending(),
    {
        let mut txs: Vec<oneshot::Sender<()>> = Vec::new();
        std::mem::swap(&mut txs, &mut self.txs);
        let sent: usize = txs.len();
        let mut remaining: usize = txs.len();
        while remaining > 0
            invariant
                remaining == txs@.len(),
            decreases remaining,
        {
            match txs.pop() {
                Some(tx) => send_stop(tx),
                None => {},
            }
            remaining = remaining - 1;
        }
        sent
    }

    /// How many listeners are still waiting for a stop.
    pub fn num_waiting(&self) -> (n: usize)
        ensures
            n == self.pending(),
    {
        self.txs.len()
    }
}

} // verus!
