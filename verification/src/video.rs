//! What the decoder hands the screens: raw RGBA frames, the filter that
//! letterboxes the source into the requested size, and what became of a
//! frame handed on.

use vstd::prelude::*;
use std::time::Duration;
use crate::text::push_str;
use crate::commands::{push_decimal, decimal};

verus! {

/// One decoded frame: `width * height` RGBA pixels, row by row, and how
/// long it is shown.
pub struct RawFrame {
    pub data: Vec<u8>,
    pub delay: Duration,
}

/// What became of a frame handed to a live stream's consumer.
pub enum FrameOutcome {
    Sent,
    Dropped,
    Disconnected,
}

/// The decoder's video filter for a `width x height` output: scale the
/// source down to fit, keeping its aspect ratio, convert to RGBA and pad
/// it, centred, with transparent black.
pub open spec fn letterbox_filter_spec(width: u32, height: u32) -> Seq<char> {
    "scale="@ + decimal(width as nat) + ":"@ + decimal(height as nat) + ":force_original_aspect_ratio=decrease,format=rgba,pad="@
        + decimal(width as nat) + ":"@ + decimal(height as nat) + ":(ow-iw)/2:(oh-ih)/2:color=black@0.0"@
}

pub fn letterbox_filter(width: u32, height: u32) -> (filter: String)
    ensures
        filter@ == letterbox_filter_spec(width, height),
{
    let mut filter = String::new();
    push_str(&mut filter, "scale=");
    push_decimal(&mut filter, width as usize);
    push_str(&mut filter, ":");
    push_decimal(&mut filter, height as usize);
    push_str(&mut filter, ":force_original_aspect_ratio=decrease,format=rgba,pad=");
    push_decimal(&mut filter, width as usize);
    push_str(&mut filter, ":");
    push_decimal(&mut filter, height as usize);
    push_str(&mut filter, ":(ow-iw)/2:(oh-ih)/2:color=black@0.0");
    filter
}


/// Counts kept while a live stream is decoded: frames decoded, sent and
/// dropped in the current statistics window, and whether any frame at all
/// was handed on.
pub struct StreamTally {
    pub decoded: u64,
    pub sent: u64,
    pub dropped: u64,
    pub sent_any: bool,
}

impl StreamTally {
    pub fn new() -> (tally: Self)
        ensures
            tally.decoded == 0,
            tally.sent == 0,
            tally.dropped == 0,
            !tally.sent_any,
    {
        StreamTally { decoded: 0, sent: 0, dropped: 0, sent_any: false }
    }

    /// Counts one decoded frame and what became of it; says whether
    /// decoding goes on, which it does unless the consumer is gone.
    pub fn record(&mut self, outcome: &FrameOutcome) -> (go_on: bool)
        requires
            old(self).decoded < u64::MAX,
            old(self).sent < u64::MAX,
            old(self).dropped < u64::MAX,
        ensures
            final(self).decoded == old(self).decoded + 1,
            final(self).sent_any,
            final(self).sent == old(self).sent + if *outcome is Sent { 1int } else { 0 },
            final(self).dropped == old(self).dropped + if *outcome is Dropped { 1int } else { 0 },
            go_on == !(*outcome is Disconnected),
    {
        self.decoded = self.decoded + 1;
        self.sent_any = true;
        match outcome {
            FrameOutcome::Sent => {
                self.sent = self.sent + 1;
                true
            },
            FrameOutcome::Dropped => {
                self.dropped = self.dropped + 1;
                true
            },
            FrameOutcome::Disconnected => false,
        }
    }

    /// Starts a new statistics window.
    pub fn reset_window(&mut self)
        ensures
            final(self).decoded == 0,
            final(self).sent == 0,
            final(self).dropped == 0,
            final(self).sent_any == old(self).sent_any,
    {
        self.decoded = 0;
        self.sent = 0;
        self.dropped = 0;
    }
}

} // verus!
