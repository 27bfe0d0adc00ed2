use vstd::prelude::*;
use tokio::sync::mpsc::{UnboundedReceiver, UnboundedSender};

verus! {

#[verifier::external_type_specification]
#[verifier::external_body]
#[verifier::reject_recursive_types(T)]
pub struct ExUnboundedSender<T>(UnboundedSender<T>);

#[verifier::external_type_specification]
#[verifier::external_body]
#[verifier::reject_recursive_types(T)]
pub struct ExUnboundedReceiver<T>(UnboundedReceiver<T>);

/// The sending end of a channel to one peer. Besides the tokio sender it
/// carries, as ghost state, which channel it belongs to and every item
/// offered on it so far, each with whether the receiving end took it.
#[verifier::reject_recursive_types(T)]
pub struct PeerSender<T> {
    tx: UnboundedSender<T>,
    channel: Ghost<int>,
    log: Ghost<Seq<(T, bool)>>,
}

/// The receiving end of a channel to one peer, with the channel it belongs
/// to as ghost state.
#[verifier::reject_recursive_types(T)]
pub struct PeerReceiver<T> {
    rx: UnboundedReceiver<T>,
    channel: Ghost<int>,
}

/// Opens a tokio unbounded channel (`tokio::sync::mpsc::unbounded_channel`).
/// The two ends it returns are the ends of that one channel, so they carry
/// the same channel id; which id that is, nothing says. Nothing has been
/// offered on the new sender.
#[verifier::external_body]
pub(crate) fn open_channel<T>() -> (ends: (PeerSender<T>, PeerReceiver<T>))
    ensures
        ends.0.channel() == ends.1.channel(),
        ends.0.log() == Seq::<(T, bool)>::empty(),
{
    let (tx, rx) = tokio::sync::mpsc::unbounded_channel();
    (PeerSender { tx, channel: Ghost(0), log: Ghost(Seq::empty()) }, PeerReceiver { rx, channel: Ghost(0) })
}

impl<T> PeerSender<T> {
    /// The channel this end belongs to.
    pub closed spec fn channel(&self) -> int {
        self.channel@
    }

    /// Every item offered on this end so far, in order, each with whether
    /// the receiving end took it.
    pub closed spec fn log(&self) -> Seq<(T, bool)> {
        self.log@
    }

    /// `UnboundedSender::send`: hands `msg` to the channel without
    /// waiting, and tells whether the receiving end took it (false once it
    /// has closed). The offer, with its outcome, is recorded in the log;
    /// whether it is taken depends on the receiver, so nothing is claimed
    /// of the outcome.
    #[verifier::external_body]
    pub fn offer(&mut self, msg: T) -> (delivered: bool)
        ensures
            final(self).channel() == old(self).channel(),
            final(self).log() == old(self).log().push((msg, delivered)),
    {
        self.tx.send(msg).is_ok()
    }
}

impl<T> PeerReceiver<T> {
    /// The channel this end belongs to.
    pub closed spec fn channel(&self) -> int {
        self.channel@
    }

    /// The tokio receiver, to read the items from.
    pub fn into_inner(self) -> UnboundedReceiver<T> {
        self.rx
    }
}

} // verus!
