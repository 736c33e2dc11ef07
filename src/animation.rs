use vstd::prelude::*;

use std::time::{Duration, Instant};

verus! {

/// `std::time::Instant`, carried through as an opaque value.
#[verifier::external_type_specification]
#[verifier::external_body]
pub struct ExInstant(std::time::Instant);

/// Relies on `Instant::now`: the current time. Nothing is known of it.
pub assume_specification[ std::time::Instant::now ]() -> std::time::Instant;

/// Relies on `Instant::elapsed`: the time since the instant. Nothing is known
/// of it.
pub assume_specification[ std::time::Instant::elapsed ](i: &std::time::Instant) -> std::time::Duration;

/// Relies on `Duration::as_nanos`: the whole nanoseconds of a span, which
/// order spans as `Duration`'s own order does.
pub assume_specification[ std::time::Duration::as_nanos ](d: &std::time::Duration) -> u128;

/// A sprite sheet of `frame_count` frames side by side, shown one after
/// another, each for `delay`.
pub struct Animation {
    spritesheet: String,
    frame_count: usize,
    delay: Duration,
    frame: usize,
    last_change: Instant,
}

impl Animation {
    pub closed spec fn spec_spritesheet(&self) -> Seq<char> {
        self.spritesheet@
    }

    pub closed spec fn spec_frame_count(&self) -> nat {
        self.frame_count as nat
    }

    /// The frame shown now, counted from 0.
    pub closed spec fn spec_frame(&self) -> nat {
        self.frame as nat
    }

    /// The frame shown is one of the sheet's, or the first of an empty sheet.
    pub open spec fn wf(&self) -> bool {
        self.spec_frame() < self.spec_frame_count() || self.spec_frame() == 0
    }

    /// An animation at its first frame, timed from now.
    pub fn new(spritesheet: String, frame_count: usize, delay: Duration) -> (r: Animation)
        ensures
            r.wf(),
            r.spec_spritesheet() == spritesheet@,
            r.spec_frame_count() == frame_count,
            r.spec_frame() == 0,
    {
        Animation { spritesheet, frame_count, delay, frame: 0, last_change: Instant::now() }
    }

    pub fn spritesheet(&self) -> (r: &String)
        ensures
            r@ == self.spec_spritesheet(),
    {
        &self.spritesheet
    }

    pub fn frame_count(&self) -> (r: usize)
        ensures
            r == self.spec_frame_count(),
    {
        self.frame_count
    }

    pub fn frame(&self) -> (r: usize)
        ensures
            r == self.spec_frame(),
    {
        self.frame
    }

    /// Moves to the next frame, from the last back to the first.
    pub fn advance_frame(&mut self)
        requires
            old(self).wf(),
            old(self).spec_frame_count() > 0,
        ensures
            final(self).wf(),
            final(self).spec_frame() == (old(self).spec_frame() as int + 1) % (old(
                self,
            ).spec_frame_count() as int),
            final(self).spec_frame_count() == old(self).spec_frame_count(),
            final(self).spec_spritesheet() == old(self).spec_spritesheet(),
    {
        self.frame = (self.frame + 1) % self.frame_count;
    }

    /// Moves to the next frame when more than the delay has passed since the
    /// last change, and times the next change from then.
    pub fn update(&mut self)
        requires
            old(self).wf(),
            old(self).spec_frame_count() > 0,
        ensures
            final(self).wf(),
            final(self).spec_frame() == old(self).spec_frame() || final(self).spec_frame() == (old(
                self,
            ).spec_frame() as int + 1) % (old(self).spec_frame_count() as int),
            final(self).spec_frame_count() == old(self).spec_frame_count(),
            final(self).spec_spritesheet() == old(self).spec_spritesheet(),
    {
        let elapsed = self.last_change.elapsed();
        if elapsed.as_nanos() > self.delay.as_nanos() {
            self.advance_frame();
            self.last_change = Instant::now();
        }
    }

    /// Where the current frame lies in a sheet of `sheet_width` by
    /// `sheet_height` pixels: left edge, top edge, width and height.
    pub fn frame_window(&self, sheet_width: u32, sheet_height: u32) -> (r: (i32, i32, u32, u32))
        requires
            self.wf(),
            0 < self.spec_frame_count() <= u32::MAX,
            sheet_width <= i32::MAX,
        ensures
            r.2 == sheet_width as int / self.spec_frame_count() as int,
            r.0 == r.2 * self.spec_frame(),
            r.1 == 0,
            r.3 == sheet_height,
    {
        let width = sheet_width / self.frame_count as u32;
        let frame = self.frame as u32;
        proof {
            assert(width * frame <= sheet_width) by (nonlinear_arith)
                requires
                    width == sheet_width as int / self.frame_count as int,
                    frame < self.frame_count,
                    self.frame_count > 0,
            ;
        }
        let x = (width * frame) as i32;
        (x, 0, width, sheet_height)
    }
}

} // verus!
