//! The renderer's decisions that do not touch the device: which adapter a setting asks
//! for, how big a window's swapchain is, and what a failed frame means.

use vstd::prelude::*;

use crate::strs::{ascii_lower_seq, lower_ascii, str_eq};

verus! {

broadcast use vstd::string::group_string_axioms;

/// Which adapter to ask for.
#[derive(Clone, Copy, Debug, PartialEq, Eq)]
pub enum Power {
    High,
    Low,
    /// The CPU rasteriser ("Microsoft Basic Render Driver"). Slow but it never
    /// touches the vendor GPU driver, so automated tests run on it.
    Software,
}

/// The adapter a lower-cased setting names.
pub open spec fn power_of(s: Seq<char>) -> Power {
    if s == "high"@ {
        Power::High
    } else if s == "software"@ || s == "warp"@ || s == "cpu"@ {
        Power::Software
    } else {
        Power::Low
    }
}

impl Power {
    /// Anything but an explicit "high"/"software" is Low: High can pin a core.
    pub fn parse(s: &str) -> (r: Power)
        ensures
            r == power_of(ascii_lower_seq(s@)),
    {
        let l = lower_ascii(s);
        let l = l.as_str();
        if str_eq(l, "high") {
            Power::High
        } else if str_eq(l, "software") || str_eq(l, "warp") || str_eq(l, "cpu") {
            Power::Software
        } else {
            Power::Low
        }
    }

    /// Whether the adapter must be the software fallback one.
    pub fn fallback(self) -> (r: bool)
        ensures
            r == (self is Software),
    {
        match self {
            Power::Software => true,
            _ => false,
        }
    }
}

/// The swapchain grows in steps of this, so a resize drag does not reconfigure per pixel.
pub const BUCKET: u32 = 128;

/// The largest swapchain side.
pub const MAX_SIDE: u32 = 8192;

/// `v` rounded up to a bucket, one bucket of slack on top, at most `MAX_SIDE`.
pub open spec fn bucket_of(v: int) -> int {
    let b = (v + 127) / 128 * 128 + 128;
    if b < 8192 {
        b
    } else {
        8192
    }
}

/// `v` rounded up to a bucket, one bucket of slack on top, at most `MAX_SIDE`.
pub fn bucketed(v: u32) -> (r: u32)
    requires
        v <= 4294967040,
    ensures
        r == bucket_of(v as int),
{
    let b = (v as u64 + 127) / 128 * 128 + 128;
    if b < MAX_SIDE as u64 {
        b as u32
    } else {
        MAX_SIDE
    }
}

/// The new swapchain size for a window of `w` x `h` whose swapchain is `cw` x `ch`: it
/// grows as soon as the window outgrows it, and shrinks once the window has been far
/// smaller for a while (`settled`); otherwise it stays.
pub open spec fn resized(w: int, h: int, cw: int, ch: int, settled: bool) -> Option<(int, int)> {
    let w = if w < 1 {
        1
    } else {
        w
    };
    let h = if h < 1 {
        1
    } else {
        h
    };
    let grow = w > cw || h > ch;
    let shrink = cw >= w + 4 * 128 && ch >= h + 4 * 128 && settled;
    if !(grow || shrink) {
        None
    } else {
        Some(
            (
                if w > cw || shrink {
                    bucket_of(w)
                } else {
                    cw
                },
                if h > ch || shrink {
                    bucket_of(h)
                } else {
                    ch
                },
            ),
        )
    }
}

/// The new swapchain size, or `None` when the swapchain stays as it is.
pub fn swapchain_resize(w: u32, h: u32, cw: u32, ch: u32, settled: bool) -> (r: Option<(u32, u32)>)
    requires
        w <= 4294966783,
        h <= 4294966783,
    ensures
        match r {
            Some((a, b)) => resized(w as int, h as int, cw as int, ch as int, settled) == Some((a as int, b as int)),
            None => resized(w as int, h as int, cw as int, ch as int, settled) is None,
        },
{
    let w = if w < 1 {
        1
    } else {
        w
    };
    let h = if h < 1 {
        1
    } else {
        h
    };
    let grow = w > cw || h > ch;
    let shrink = cw >= w + 4 * BUCKET && ch >= h + 4 * BUCKET && settled;
    if !(grow || shrink) {
        return None;
    }
    let nw = if w > cw || shrink {
        bucketed(w)
    } else {
        cw
    };
    let nh = if h > ch || shrink {
        bucketed(h)
    } else {
        ch
    };
    Some((nw, nh))
}

/// Why a frame was not drawn.
#[derive(Debug)]
pub enum RenderError {
    /// Skip this frame; nothing is wrong with the device.
    Skip(String),
    /// The surface could not be recovered: rebuild the GPU.
    Lost(String),
}

/// A surface that stayed unavailable: the third failure in a row gives it up.
pub fn unavailable(failures: u32, msg: String) -> (r: RenderError)
    ensures
        r == if failures >= 3 {
            RenderError::Lost(msg)
        } else {
            RenderError::Skip(msg)
        },
{
    if failures >= 3 {
        RenderError::Lost(msg)
    } else {
        RenderError::Skip(msg)
    }
}

} // verus!
