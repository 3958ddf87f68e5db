use vstd::prelude::*;

verus! {

/// The mutable state of the scrolling animation: the horizontal
/// offset of the text and how many full passes have completed.
pub struct ScrollState {
    /// Signed horizontal offset: the viewport column where the text's
    /// left edge stands; may be negative or exceed the width.
    pub x: i64,
    /// Completed full passes across the screen.
    pub loops_done: u32,
}

impl ScrollState {
    /// The state at the start of the animation: the text waits just
    /// past the right edge, no pass completed yet.
    pub fn init(width: u16) -> (s: Self)
        ensures
            s.x == width as int,
            s.loops_done == 0,
    {
        ScrollState { x: width as i64, loops_done: 0 }
    }

    /// One frame's scroll step: the text moves one column left; once
    /// it has scrolled fully past the left edge, the offset resets to
    /// the right edge and one more completed pass is counted (the
    /// count saturating rather than wrapping).
    pub fn advance(&mut self, width: u16, text_width: usize)
        requires
            old(self).x > i64::MIN,
        ensures
            ({
                let xd = old(self).x - 1;
                if xd < -(text_width as int) {
                    &&& final(self).x == width as int
                    &&& final(self).loops_done == (if old(self).loops_done < u32::MAX {
                        old(self).loops_done + 1
                    } else {
                        u32::MAX as int
                    })
                } else {
                    &&& final(self).x == xd
                    &&& final(self).loops_done == old(self).loops_done
                }
            }),
    {
        self.x = self.x - 1;
        if (self.x as i128) < -(text_width as i128) {
            self.x = width as i64;
            if self.loops_done < u32::MAX {
                self.loops_done = self.loops_done + 1;
            }
        }
    }

    /// Whether the animation owes more frames: a target of zero means
    /// scroll forever.
    pub fn should_continue(&self, scroll_loops: u32) -> (r: bool)
        ensures
            r == (scroll_loops == 0 || self.loops_done < scroll_loops),
    {
        scroll_loops == 0 || self.loops_done < scroll_loops
    }
}

/// Whether a key press ends the animation: only when exiting on input
/// is permitted; otherwise the event is ignored.
pub fn exit_requested(key_pressed: bool, allow_exit: bool) -> (r: bool)
    ensures
        r == (key_pressed && allow_exit),
{
    key_pressed && allow_exit
}

/// The pre-loop check: the big text fits the viewport only when it
/// has no more rows than the terminal has lines.
pub fn viewport_fits(row_count: usize, height: u16) -> (r: bool)
    ensures
        r == (row_count <= height as int),
{
    row_count <= height as usize
}

/// The row where the top of the big text stands this frame: the block
/// is centered vertically; negative when the text is taller than the
/// viewport, which the renderer's bounds check absorbs.
pub fn y_base(height: u16, row_count: usize) -> (y: i64)
    requires
        row_count <= u16::MAX as int,
    ensures
        y == height as int / 2 - row_count as int / 2,
{
    height as i64 / 2 - row_count as i64 / 2
}

} // verus!
