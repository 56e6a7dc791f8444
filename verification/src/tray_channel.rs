//! The tray thread's command channel, held so that the record of what was
//! sent can only grow by a send.
use std::sync::mpsc::Sender;
use vstd::prelude::*;
use crate::tray::TrayCommand;

verus! {

#[verifier::external_type_specification]
#[verifier::external_body]
#[verifier::reject_recursive_types(T)]
pub struct ExSender<T>(Sender<T>);

/// The sending end of the tray thread's command channel, with a record of the
/// commands passed to its `send`.
pub struct TrayHandle {
    tx: Sender<TrayCommand>,
    sent: Ghost<Seq<Seq<char>>>,
}

impl TrayHandle {
    /// The channel end through which the commands go.
    pub closed spec fn sender(&self) -> Sender<TrayCommand> {
        self.tx
    }

    /// The tooltips of the commands passed to the channel's `send` so far, in
    /// order, whether or not the tray thread was still there to take them.
    pub closed spec fn handed_over(&self) -> Seq<Seq<char>> {
        self.sent@
    }

    /// A handle that sends its commands through `tx`, with nothing sent yet.
    pub fn new(tx: Sender<TrayCommand>) -> (r: TrayHandle)
        ensures
            r.sender() == tx,
            r.handed_over() == Seq::<Seq<char>>::empty(),
    {
        TrayHandle { tx, sent: Ghost(Seq::empty()) }
    }
}

/// `Sender::send` on the handle's channel end, then `Result::is_ok`: passes
/// `cmd` to the channel (a closed channel hands it back as an error, which is
/// dropped; the call neither blocks nor panics).  The handle's record of what
/// was passed to `send` gains `cmd`'s tooltip, and the channel end stays the
/// same.  Whether the command arrives depends on the tray thread still
/// running, so nothing is promised of the result.
#[verifier::external_body]
pub(crate) fn send_command(h: &mut TrayHandle, cmd: TrayCommand) -> (sent: bool)
    ensures
        final(h).sender() == old(h).sender(),
        final(h).handed_over() == old(h).handed_over().push(cmd.spec_tip()),
{
    h.tx.send(cmd).is_ok()
}

} // verus!
