use vstd::prelude::*;

verus! {

/// A rectangular viewport over the grid's coordinate space: an origin, an
/// extent, and the physical bounds (for instance the terminal size) that the
/// extent may never exceed when zooming out.
pub struct ViewRect {
    pub x: isize,
    pub y: isize,
    pub x_len: isize,
    pub y_len: isize,
    pub x_max: isize,
    pub y_max: isize,
}

impl ViewRect {
    /// Creates a viewport anchored at `(x, y)` whose initial extent is four
    /// fifths of the given bounds.
    pub fn new(x: isize, y: isize, x_max: isize, y_max: isize) -> (v: ViewRect)
        requires
            0 <= x_max <= isize::MAX / 4,
            0 <= y_max <= isize::MAX / 4,
        ensures
            v.x == x,
            v.y == y,
            v.x_len == x_max * 4 / 5,
            v.y_len == y_max * 4 / 5,
            v.x_max == x_max,
            v.y_max == y_max,
    {
        let x_len = x_max * 4 / 5;
        let y_len = y_max * 4 / 5;
        ViewRect { x, y, x_len, y_len, x_max, y_max }
    }

    /// Zooms the horizontal axis: a positive `amount` narrows the extent by
    /// `2 * amount` and shifts the origin inward to keep the view centred; a
    /// negative `amount` widens it the same way, but is rejected (no-op) when
    /// the widened extent would exceed the physical bound `x_max`.
    pub fn zoom_x(&mut self, amount: isize)
        requires
            isize::MIN <= 2 * amount <= isize::MAX,
            isize::MIN <= old(self).x_len - 2 * amount <= isize::MAX,
            isize::MIN <= old(self).x + amount <= isize::MAX,
        ensures
            (if amount > 0 || (amount < 0 && old(self).x_len - 2 * amount <= old(self).x_max) {
                final(self).x == old(self).x + amount
                    && final(self).x_len == old(self).x_len - 2 * amount
            } else {
                final(self).x == old(self).x && final(self).x_len == old(self).x_len
            }),
            final(self).y == old(self).y,
            final(self).y_len == old(self).y_len,
            final(self).x_max == old(self).x_max,
            final(self).y_max == old(self).y_max,
    {
        let future_len = self.x_len - 2 * amount;
        if amount > 0 || (amount < 0 && future_len <= self.x_max) {
            self.x = self.x + amount;
            self.x_len = future_len;
        }
    }

    /// Zooms the vertical axis; same clamping rule as `zoom_x`.
    pub fn zoom_y(&mut self, amount: isize)
        requires
            isize::MIN <= 2 * amount <= isize::MAX,
            isize::MIN <= old(self).y_len - 2 * amount <= isize::MAX,
            isize::MIN <= old(self).y + amount <= isize::MAX,
        ensures
            (if amount > 0 || (amount < 0 && old(self).y_len - 2 * amount <= old(self).y_max) {
                final(self).y == old(self).y + amount
                    && final(self).y_len == old(self).y_len - 2 * amount
            } else {
                final(self).y == old(self).y && final(self).y_len == old(self).y_len
            }),
            final(self).x == old(self).x,
            final(self).x_len == old(self).x_len,
            final(self).x_max == old(self).x_max,
            final(self).y_max == old(self).y_max,
    {
        let future_len = self.y_len - 2 * amount;
        if amount > 0 || (amount < 0 && future_len <= self.y_max) {
            self.y = self.y + amount;
            self.y_len = future_len;
        }
    }

    /// Zooms both axes symmetrically around the view's centre.
    pub fn zoom(&mut self, amount: isize)
        requires
            isize::MIN <= 2 * amount <= isize::MAX,
            isize::MIN <= old(self).x_len - 2 * amount <= isize::MAX,
            isize::MIN <= old(self).x + amount <= isize::MAX,
            isize::MIN <= old(self).y_len - 2 * amount <= isize::MAX,
            isize::MIN <= old(self).y + amount <= isize::MAX,
        ensures
            (if amount > 0 || (amount < 0 && old(self).x_len - 2 * amount <= old(self).x_max) {
                final(self).x == old(self).x + amount
                    && final(self).x_len == old(self).x_len - 2 * amount
            } else {
                final(self).x == old(self).x && final(self).x_len == old(self).x_len
            }),
            (if amount > 0 || (amount < 0 && old(self).y_len - 2 * amount <= old(self).y_max) {
                final(self).y == old(self).y + amount
                    && final(self).y_len == old(self).y_len - 2 * amount
            } else {
                final(self).y == old(self).y && final(self).y_len == old(self).y_len
            }),
            final(self).x_max == old(self).x_max,
            final(self).y_max == old(self).y_max,
    {
        self.zoom_x(amount);
        self.zoom_y(amount);
    }

    /// Zooms out by `amount`: the mirror image of `zoom(amount)`.
    pub fn unzoom(&mut self, amount: isize)
        requires
            isize::MIN < amount,
            isize::MIN < 2 * amount <= isize::MAX,
            isize::MIN <= old(self).x_len + 2 * amount <= isize::MAX,
            isize::MIN <= old(self).x - amount <= isize::MAX,
            isize::MIN <= old(self).y_len + 2 * amount <= isize::MAX,
            isize::MIN <= old(self).y - amount <= isize::MAX,
        ensures
            (if -amount > 0 || (-amount < 0 && old(self).x_len + 2 * amount <= old(self).x_max) {
                final(self).x == old(self).x - amount
                    && final(self).x_len == old(self).x_len + 2 * amount
            } else {
                final(self).x == old(self).x && final(self).x_len == old(self).x_len
            }),
            (if -amount > 0 || (-amount < 0 && old(self).y_len + 2 * amount <= old(self).y_max) {
                final(self).y == old(self).y - amount
                    && final(self).y_len == old(self).y_len + 2 * amount
            } else {
                final(self).y == old(self).y && final(self).y_len == old(self).y_len
            }),
            final(self).x_max == old(self).x_max,
            final(self).y_max == old(self).y_max,
    {
        self.zoom(-amount);
    }

    /// Pans the view one step to the left; the origin is unconstrained.
    pub fn move_left(&mut self, amount: isize)
        requires
            isize::MIN <= old(self).x - amount <= isize::MAX,
        ensures
            final(self).x == old(self).x - amount,
            final(self).y == old(self).y,
            final(self).x_len == old(self).x_len,
            final(self).y_len == old(self).y_len,
            final(self).x_max == old(self).x_max,
            final(self).y_max == old(self).y_max,
    {
        self.x = self.x - amount;
    }

    /// Pans the view one step to the right.
    pub fn move_right(&mut self, amount: isize)
        requires
            isize::MIN <= old(self).x + amount <= isize::MAX,
        ensures
            final(self).x == old(self).x + amount,
            final(self).y == old(self).y,
            final(self).x_len == old(self).x_len,
            final(self).y_len == old(self).y_len,
            final(self).x_max == old(self).x_max,
            final(self).y_max == old(self).y_max,
    {
        self.x = self.x + amount;
    }

    /// Pans the view one step up (towards smaller y).
    pub fn move_up(&mut self, amount: isize)
        requires
            isize::MIN <= old(self).y - amount <= isize::MAX,
        ensures
            final(self).y == old(self).y - amount,
            final(self).x == old(self).x,
            final(self).x_len == old(self).x_len,
            final(self).y_len == old(self).y_len,
            final(self).x_max == old(self).x_max,
            final(self).y_max == old(self).y_max,
    {
        self.y = self.y - amount;
    }

    /// Pans the view one step down (towards larger y).
    pub fn move_down(&mut self, amount: isize)
        requires
            isize::MIN <= old(self).y + amount <= isize::MAX,
        ensures
            final(self).y == old(self).y + amount,
            final(self).x == old(self).x,
            final(self).x_len == old(self).x_len,
            final(self).y_len == old(self).y_len,
            final(self).x_max == old(self).x_max,
            final(self).y_max == old(self).y_max,
    {
        self.y = self.y + amount;
    }
}

} // verus!
