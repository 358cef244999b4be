//! The presentation surface: the client size a window shows and the
//! canvas it blits. The native windowing calls live outside the
//! library; this state is what they read.

use vstd::prelude::*;
use crate::painting::Canvas;

verus! {

/// A window's client size and the canvas currently shown in it.
pub struct Window {
    pub width: i32,
    pub height: i32,
    pub canvas: Canvas,
}

impl Window {
    /// A window showing `canvas` at the given client size.
    pub fn new(width: i32, height: i32, canvas: Canvas) -> (w: Window)
        ensures
            w.width == width,
            w.height == height,
            w.canvas == canvas,
    {
        Window { width, height, canvas }
    }

    /// Replace the canvas the window shows; the client size stays.
    pub fn swap_buffer(&mut self, canvas: Canvas)
        ensures
            final(self).canvas == canvas,
            final(self).width == old(self).width,
            final(self).height == old(self).height,
    {
        self.canvas = canvas;
    }
}

} // verus!
