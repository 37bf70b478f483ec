//! A screen that draws a list of components.
use vstd::prelude::*;

verus! {

/// Something that can draw itself.
pub trait Draw {
    fn draw(&self);
}

/// A screen made of components of one drawable kind.
pub struct Screen<T: Draw> {
    pub components: Vec<T>,
}

impl<T: Draw> Screen<T> {
    /// Draws every component, in order.
    pub fn run(&self) {
        let n = self.components.len();
        let mut i: usize = 0;
        while i < n
            invariant
                n == self.components.len(),
                i <= n,
            decreases n - i,
        {
            self.components[i].draw();
            i = i + 1;
        }
    }
}

/// A labelled button.
pub struct Button {
    pub width: u32,
    pub height: u32,
    pub label: String,
}

impl Draw for Button {
    fn draw(&self) {
    }
}

} // verus!
