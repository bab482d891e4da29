//! Result types of a solve that hold no floating-point data.

use vstd::prelude::*;
use crate::perf::{PerfTimer, millis_of};

verus! {

/// Milliseconds spent in each stage of a solve.
#[derive(Clone, Copy, Debug, Default, PartialEq, Eq)]
pub struct PerfTimings {
    pub preprocess_ms: i64,
    pub yolo_infer_ms: i64,
    pub crop_resize_ms: i64,
    pub siamese_infer_ms: i64,
    pub total_ms: i64,
}

/// Milliseconds that `timer` reports for stage `name` (0 when it never ran).
pub open spec fn stage_ms(timer: PerfTimer, name: Seq<char>) -> i64 {
    if timer@.contains_key(name) { millis_of(timer@[name]) } else { 0 }
}

impl PerfTimings {
    /// Reads the four stages of a solve off `timer` ("preprocess", "yolo_infer",
    /// "crop_resize", "siamese_infer"); `total_ms` is the wall time of the whole solve.
    pub fn from_timer(timer: &PerfTimer, total_ms: i64) -> (t: PerfTimings)
        requires
            timer.wf(),
        ensures
            t.preprocess_ms == stage_ms(*timer, "preprocess"@),
            t.yolo_infer_ms == stage_ms(*timer, "yolo_infer"@),
            t.crop_resize_ms == stage_ms(*timer, "crop_resize"@),
            t.siamese_infer_ms == stage_ms(*timer, "siamese_infer"@),
            t.total_ms == total_ms,
    {
        PerfTimings {
            preprocess_ms: timer.elapsed_ms("preprocess"),
            yolo_infer_ms: timer.elapsed_ms("yolo_infer"),
            crop_resize_ms: timer.elapsed_ms("crop_resize"),
            siamese_infer_ms: timer.elapsed_ms("siamese_infer"),
            total_ms,
        }
    }
}

} // verus!
