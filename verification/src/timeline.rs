//! Playback and timeline state that is plain data: the playback state, the
//! timeline's visual variants, and the classic variant's own state.

use vstd::prelude::*;

verus! {

/// State of log playback.
#[derive(Debug, Clone, Copy, PartialEq, Eq, Structural)]
pub enum PlaybackState {
    Stopped,
    Playing,
    Paused,
}

/// Available timeline visual variants.
#[derive(Debug, Clone, Copy, PartialEq, Eq, Structural)]
pub enum TimelineVariant {
    Minimal,
    Classic,
}

impl Default for TimelineVariant {
    /// The minimal variant is the default.
    fn default() -> (r: Self)
        ensures
            r == TimelineVariant::Minimal,
    {
        TimelineVariant::Minimal
    }
}

impl TimelineVariant {
    /// The display name of the variant.
    pub fn name(&self) -> (r: &'static str)
        ensures
            *self == TimelineVariant::Minimal ==> r@ == "Minimal"@,
            *self == TimelineVariant::Classic ==> r@ == "Classic"@,
    {
        match self {
            TimelineVariant::Minimal => "Minimal",
            TimelineVariant::Classic => "Classic",
        }
    }

    /// Every variant, in display order.
    pub fn all() -> (r: Vec<TimelineVariant>)
        ensures
            r@ == seq![TimelineVariant::Minimal, TimelineVariant::Classic],
    {
        let mut r: Vec<TimelineVariant> = Vec::new();
        r.push(TimelineVariant::Minimal);
        r.push(TimelineVariant::Classic);
        proof {
            assert(r@ =~= seq![TimelineVariant::Minimal, TimelineVariant::Classic]);
        }
        r
    }
}

/// State of the classic timeline renderer.
#[derive(Debug, Clone)]
pub struct ClassicTimeline {
    /// Hover state for smooth interactions.
    pub hovered_region: bool,
}

impl ClassicTimeline {
    /// A fresh renderer with no region hovered.
    pub fn new() -> (r: Self)
        ensures
            !r.hovered_region,
    {
        ClassicTimeline { hovered_region: false }
    }
}

impl Default for ClassicTimeline {
    /// A fresh renderer with no region hovered.
    fn default() -> (r: Self)
        ensures
            !r.hovered_region,
    {
        ClassicTimeline::new()
    }
}

} // verus!
