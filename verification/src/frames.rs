//! Frame selection and the captioning pipeline: decide which frames of an
//! animation receive the caption, and produce the captioned frame sequence
//! in source order with a fixed output delay.

use vstd::prelude::*;

use crate::buffer::{PixelBuffer, Rgba};
use crate::compose::{render_caption_spec, render_bottom_caption_mut};
use crate::font::FontModel;

verus! {

/// The contiguous, both-ends-exclusive range of 1-based frame ordinals that
/// receive the caption: the establishing frames at or before `frame_start`
/// and the trailing frames at or after `frame_end` pass through untouched.
pub struct FrameSelector {
    pub frame_start: u32,
    pub frame_end: u32,
}

impl FrameSelector {
    /// Whether the frame with this 1-based ordinal receives the caption.
    pub open spec fn selects(&self, frame_index: int) -> bool {
        self.frame_start < frame_index < self.frame_end
    }

    /// Decide whether the frame with this 1-based ordinal receives the
    /// caption: exactly those strictly between `frame_start` and
    /// `frame_end`.
    pub fn should_caption(&self, frame_index: u32) -> (r: bool)
        ensures
            r == self.selects(frame_index as int),
    {
        self.frame_start < frame_index && frame_index < self.frame_end
    }
}

/// One animation frame: an owned pixel buffer and a display delay in
/// hundredths of a second.
pub struct Frame {
    pub buffer: PixelBuffer,
    pub delay_cs: u16,
}

/// Caption an animation: for each source frame, in order, an output frame
/// with the same dimensions, carrying the fixed output delay; the frames the
/// selector picks (by 1-based ordinal) carry the caption rendered onto a
/// copy of their pixels, all others carry their pixels unchanged.
pub fn caption_frames(
    frames: &Vec<Frame>,
    font: &FontModel,
    caption: &str,
    selector: &FrameSelector,
    color: Rgba,
    bottom_margin: u32,
    horiz_padding: u32,
    out_delay_cs: u16,
) -> (out: Vec<Frame>)
    requires
        font.wf(),
        frames@.len() < 0x1_0000_0000,
        forall|i: int| 0 <= i < frames@.len() ==> (#[trigger] frames@[i]).buffer.wf(),
    ensures
        out@.len() == frames@.len(),
        forall|i: int|
            0 <= i < out@.len() ==> {
                &&& (#[trigger] out@[i]).delay_cs == out_delay_cs
                &&& out@[i].buffer.width == frames@[i].buffer.width
                &&& out@[i].buffer.height == frames@[i].buffer.height
                &&& out@[i].buffer.data@ == if selector.selects(i + 1) {
                    render_caption_spec(
                        frames@[i].buffer.data@,
                        frames@[i].buffer.width as int,
                        frames@[i].buffer.height as int,
                        color,
                        font,
                        caption@,
                        bottom_margin as int,
                        horiz_padding as int,
                    )
                } else {
                    frames@[i].buffer.data@
                }
            },
{
    let n = frames.len();
    let mut out: Vec<Frame> = Vec::new();
    let mut k: usize = 0;
    while k < n
        invariant
            k <= n,
            n == frames@.len(),
            n < 0x1_0000_0000,
            font.wf(),
            forall|i: int| 0 <= i < frames@.len() ==> (#[trigger] frames@[i]).buffer.wf(),
            out@.len() == k,
            forall|i: int|
                0 <= i < k ==> {
                    &&& (#[trigger] out@[i]).delay_cs == out_delay_cs
                    &&& out@[i].buffer.width == frames@[i].buffer.width
                    &&& out@[i].buffer.height == frames@[i].buffer.height
                    &&& out@[i].buffer.data@ == if selector.selects(i + 1) {
                        render_caption_spec(
                            frames@[i].buffer.data@,
                            frames@[i].buffer.width as int,
                            frames@[i].buffer.height as int,
                            color,
                            font,
                            caption@,
                            bottom_margin as int,
                            horiz_padding as int,
                        )
                    } else {
                        frames@[i].buffer.data@
                    }
                },
        decreases n - k,
    {
        let mut buf = frames[k].buffer.copy_of();
        let ordinal: u32 = (k as u32) + 1;
        if selector.should_caption(ordinal) {
            render_bottom_caption_mut(&mut buf, color, font, caption, bottom_margin, horiz_padding);
        }
        out.push(Frame { buffer: buf, delay_cs: out_delay_cs });
        k = k + 1;
    }
    out
}

} // verus!
