//! The handle through which the playback loop talks to the tray icon's thread.
use vstd::prelude::*;
use crate::overlay::{to_wide, utf16_of};
pub use crate::tray_channel::TrayHandle;
use crate::tray_channel::send_command;

verus! {

/// A request to the tray thread.
pub enum TrayCommand {
    SetTooltip(String),
}

impl TrayCommand {
    /// The tooltip that the command sets.
    pub open spec fn spec_tip(&self) -> Seq<char> {
        match self {
            TrayCommand::SetTooltip(t) => t@,
        }
    }
}

/// The command that sets the tooltip to `tip`.
pub fn tooltip_command(tip: &str) -> (r: TrayCommand)
    ensures
        r matches TrayCommand::SetTooltip(t) && t@ == tip@,
{
    TrayCommand::SetTooltip(tip.to_owned())
}

/// The tooltip as the notification icon holds it: `tip` in UTF-16 with its
/// terminating zero, cut to the 128 units that the icon's tooltip field holds.
pub open spec fn tip_units_spec(tip: Seq<char>) -> Seq<u16> {
    let w = utf16_of(tip).push(0);
    if w.len() > 128 {
        w.take(128)
    } else {
        w
    }
}

/// The units to copy into the notification icon's tooltip field.
pub fn tip_units(tip: &str) -> (r: Vec<u16>)
    ensures
        r@ == tip_units_spec(tip@),
{
    let mut w = to_wide(tip);
    if w.len() > 128 {
        w.truncate(128);
    }
    w
}

impl TrayHandle {
    /// Asks the tray thread to show `tip` as the icon's tooltip: passes
    /// exactly one command to the channel's `send`, which sets the tooltip to
    /// `tip`.
    pub fn set_tooltip(&mut self, tip: &str)
        ensures
            final(self).sender() == old(self).sender(),
            final(self).handed_over() == old(self).handed_over().push(tip@),
    {
        let _ = send_command(self, tooltip_command(tip));
    }
}

} // verus!
