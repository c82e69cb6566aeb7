//! The kernel's only form of output: an 80 by 25 text-mode screen with
//! a configurable scroll region. The video memory is modelled as an
//! owned row-major cell buffer, and the hardware cursor as a stored
//! cell index, so every write is bounds-checked.

use vstd::prelude::*;

verus! {

pub const SCREEN_MIN_X: u32 = 0;
pub const SCREEN_MIN_Y: u32 = 0;
pub const SCREEN_SIZE_X: u32 = 80;
pub const SCREEN_SIZE_Y: u32 = 25;
pub const SCREEN_MAX_X: u32 = SCREEN_SIZE_X - 1;
pub const SCREEN_MAX_Y: u32 = SCREEN_SIZE_Y - 1;

/// The blank, newline and carriage-return bytes.
pub const CH_BLANK: u8 = 0x20;
pub const CH_NL: u8 = 0x0a;
pub const CH_CR: u8 = 0x0d;

/// Console state: screen bounds, scroll region, cursor position and
/// the cell buffer.
pub struct Cio {
    pub scroll_min_x: u32,
    pub scroll_min_y: u32,
    pub scroll_max_x: u32,
    pub scroll_max_y: u32,
    pub curr_x: u32,
    pub curr_y: u32,
    pub min_x: u32,
    pub min_y: u32,
    pub max_x: u32,
    pub max_y: u32,
    /// The cell at column x of row y stands at index `y * 80 + x`.
    pub buffer: Vec<u16>,
    /// Cell index the hardware cursor is parked at.
    pub cursor: u32,
}

/// Index of the cell at column `x` of row `y`.
pub open spec fn cell_at(x: int, y: int) -> int {
    y * 80 + x
}

/// A byte as it is stored on the screen: white-on-black attribute in
/// the high byte.
pub open spec fn glyph(c: u8) -> u16 {
    (c as u16) | 0x0700
}

impl Cio {
    /// Screen and scroll-region bounds are ordered and on screen, and
    /// the buffer holds the whole screen.
    pub open spec fn bounds_ok(self) -> bool {
        &&& self.buffer@.len() == 2000
        &&& self.min_x <= self.scroll_min_x <= self.scroll_max_x <= self.max_x
        &&& self.max_x <= SCREEN_SIZE_X
        &&& self.min_y <= self.scroll_min_y <= self.scroll_max_y <= self.max_y
        &&& self.max_y <= SCREEN_SIZE_Y
    }

    /// Well-formed console: ordered bounds and a cursor position that
    /// has not run off the scroll region.
    pub open spec fn wf(self) -> bool {
        &&& self.bounds_ok()
        &&& self.curr_x <= self.scroll_max_x
        &&& self.curr_y <= self.scroll_max_y
    }

    /// A console over a blank screen, scrolling the whole of it.
    pub fn new() -> (r: Cio)
        ensures
            r.wf(),
            r.curr_x == 0,
            r.curr_y == 0,
            r.scroll_min_x == 0,
            r.scroll_min_y == 0,
            r.scroll_max_x == SCREEN_SIZE_X,
            r.scroll_max_y == SCREEN_SIZE_Y,
            forall|i: int| 0 <= i < 2000 ==> r.buffer@[i] == glyph(CH_BLANK),
    {
        let mut buffer: Vec<u16> = Vec::new();
        let mut i: usize = 0;
        while i < 2000
            invariant
                i <= 2000,
                buffer@.len() == i,
                forall|k: int| 0 <= k < i ==> buffer@[k] == glyph(CH_BLANK),
            decreases 2000 - i,
        {
            buffer.push((CH_BLANK as u16) | 0x0700);
            i = i + 1;
        }
        Cio {
            scroll_min_x: 0,
            scroll_min_y: 0,
            scroll_max_x: SCREEN_SIZE_X,
            scroll_max_y: SCREEN_SIZE_Y,
            curr_x: 0,
            curr_y: 0,
            min_x: 0,
            min_y: 0,
            max_x: SCREEN_SIZE_X,
            max_y: SCREEN_SIZE_Y,
            buffer,
            cursor: 0,
        }
    }

    /// `val` clamped into the interval from `min` to `max`.
    pub open spec fn spec_bound(min: u32, val: u32, max: u32) -> u32 {
        let lo = if val < min { min } else { val };
        if lo > max { max } else { lo }
    }

    /// Makes sure a value lies between min and max.
    fn bound(min: u32, val: u32, max: u32) -> (ret: u32)
        ensures
            ret == Self::spec_bound(min, val, max),
    {
        let mut ret = val;
        if ret < min {
            ret = min;
        }
        if ret > max {
            ret = max;
        }
        ret
    }

    /// Writes one cell, if it lies within the screen bounds; outside
    /// them the write is dropped.
    fn __c_putchar_at(&mut self, x: u32, y: u32, c: u8)
        requires
            old(self).bounds_ok(),
        ensures
            *final(self) == (Cio { buffer: final(self).buffer, ..*old(self) }),
            final(self).bounds_ok(),
            if x < old(self).max_x && y <= old(self).max_y && y < SCREEN_SIZE_Y {
                final(self).buffer@ == old(self).buffer@.update(
                    cell_at(x as int, y as int), glyph(c))
            } else {
                final(self).buffer@ == old(self).buffer@
            },
    {
        if x < self.max_x && y <= self.max_y && y < SCREEN_SIZE_Y {
            proof {
                assert(cell_at(x as int, y as int) < 2000) by (nonlinear_arith)
                    requires x < 80, y < 25, 0 <= x, 0 <= y;
                assert(0 <= cell_at(x as int, y as int)) by (nonlinear_arith)
                    requires 0 <= x, 0 <= y;
            }
            let idx = (y * SCREEN_SIZE_X + x) as usize;
            let o_char = (c as u16) | 0x0700;
            self.buffer.set(idx, o_char);
        }
    }

    /// Parks the hardware cursor at the current position, with the row
    /// clamped into the scroll region.
    fn __c_setcursor(&mut self)
        requires
            old(self).bounds_ok(),
            old(self).curr_x <= SCREEN_SIZE_X,
        ensures
            *final(self) == (Cio { cursor: final(self).cursor, ..*old(self) }),
            final(self).cursor == ({
                let y = if old(self).curr_y > old(self).scroll_max_y {
                    old(self).scroll_max_y
                } else {
                    old(self).curr_y
                };
                y * 80 + old(self).curr_x
            }),
    {
        let mut y = self.curr_y;
        if y > self.scroll_max_y {
            y = self.scroll_max_y;
        }
        let addr = y * SCREEN_SIZE_X + self.curr_x;
        self.cursor = addr;
    }

    /// Sets the scroll area of the console and homes the cursor to its
    /// upper-left corner.
    pub fn c_setscroll(&mut self, s_min_x: u32, s_min_y: u32, s_max_x: u32, s_max_y: u32)
        requires
            old(self).wf(),
        ensures
            final(self).wf(),
            final(self).scroll_min_x == Cio::spec_bound(old(self).min_x, s_min_x, old(self).max_x),
            final(self).scroll_min_y == Cio::spec_bound(old(self).min_y, s_min_y, old(self).max_y),
            final(self).scroll_max_x == Cio::spec_bound(
                final(self).scroll_min_x, s_max_x, old(self).max_x),
            final(self).scroll_max_y == Cio::spec_bound(
                final(self).scroll_min_y, s_max_y, old(self).max_y),
            final(self).curr_x == final(self).scroll_min_x,
            final(self).curr_y == final(self).scroll_min_y,
            final(self).buffer == old(self).buffer,
            final(self).min_x == old(self).min_x,
            final(self).min_y == old(self).min_y,
            final(self).max_x == old(self).max_x,
            final(self).max_y == old(self).max_y,
    {
        self.scroll_min_x = Cio::bound(self.min_x, s_min_x, self.max_x);
        self.scroll_min_y = Cio::bound(self.min_y, s_min_y, self.max_y);
        self.scroll_max_x = Cio::bound(self.scroll_min_x, s_max_x, self.max_x);
        self.scroll_max_y = Cio::bound(self.scroll_min_y, s_max_y, self.max_y);
        self.curr_x = self.scroll_min_x;
        self.curr_y = self.scroll_min_y;
        self.__c_setcursor();
    }

    /// Moves the cursor to the given position, taken relative to the
    /// scroll region and clamped into it.
    pub fn c_moveto(&mut self, x: u32, y: u32)
        requires
            old(self).wf(),
            x as int + old(self).scroll_min_x <= u32::MAX,
            y as int + old(self).scroll_min_y <= u32::MAX,
        ensures
            final(self).wf(),
            final(self).curr_x == Cio::spec_bound(
                old(self).scroll_min_x,
                (x + old(self).scroll_min_x) as u32,
                old(self).scroll_max_x,
            ),
            final(self).curr_y == Cio::spec_bound(
                old(self).scroll_min_y,
                (y + old(self).scroll_min_y) as u32,
                old(self).scroll_max_y,
            ),
            *final(self) == (Cio {
                curr_x: final(self).curr_x,
                curr_y: final(self).curr_y,
                cursor: final(self).cursor,
                ..*old(self)
            }),
    {
        self.curr_x = Cio::bound(self.scroll_min_x, x + self.scroll_min_x, self.scroll_max_x);
        self.curr_y = Cio::bound(self.scroll_min_y, y + self.scroll_min_y, self.scroll_max_y);
        self.__c_setcursor();
    }

    /// Column up to which a newline printed at column `x` of a row is
    /// padded with blanks: the screen edge past the region, the region
    /// edge within it, and just short of the region before it.
    pub open spec fn nl_limit(self, x: u32) -> int {
        if x > self.scroll_max_x {
            self.max_x as int
        } else if x >= self.scroll_min_x {
            self.scroll_max_x as int
        } else {
            self.scroll_min_x - 1
        }
    }

    /// Prints a character at the given position without moving the
    /// cursor. A newline is rendered as blank padding from `x` to the
    /// limit of the region the position falls in.
    pub fn c_putchar_at(&mut self, x: u32, y: u32, c: u8)
        requires
            old(self).bounds_ok(),
        ensures
            final(self).bounds_ok(),
            *final(self) == (Cio { buffer: final(self).buffer, ..*old(self) }),
            (c & 0x7f) != CH_NL ==> (
                if x < old(self).max_x && y <= old(self).max_y && y < SCREEN_SIZE_Y {
                    final(self).buffer@ == old(self).buffer@.update(
                        cell_at(x as int, y as int), glyph(c))
                } else {
                    final(self).buffer@ == old(self).buffer@
                }
            ),
            (c & 0x7f) == CH_NL && y <= old(self).max_y && y < SCREEN_SIZE_Y ==> {
                &&& forall|w: int| x <= w < old(self).nl_limit(x)
                    ==> final(self).buffer@[#[trigger] cell_at(w, y as int)] == glyph(CH_BLANK)
                &&& forall|i: int| 0 <= i < 2000
                        && (i < cell_at(x as int, y as int)
                            || i >= cell_at(old(self).nl_limit(x), y as int))
                    ==> final(self).buffer@[i] == old(self).buffer@[i]
            },
            (c & 0x7f) == CH_NL && !(y <= old(self).max_y && y < SCREEN_SIZE_Y)
                ==> final(self).buffer@ == old(self).buffer@,
    {
        if (c & 0x7f) == CH_NL {
            let mut limit: u32 = 0;

            if x > self.scroll_max_x {
                limit = self.max_x;
            } else if x >= self.scroll_min_x {
                limit = self.scroll_max_x;
            } else {
                limit = self.scroll_min_x - 1;
            }
            proof {
                assert(limit == old(self).nl_limit(x));
                assert(limit <= old(self).max_x);
            }
            let mut w = x;
            while w < limit
                invariant
                    old(self).bounds_ok(),
                    x <= w,
                    w <= limit || w == x,
                    limit <= old(self).max_x,
                    limit == old(self).nl_limit(x),
                    *self == (Cio { buffer: self.buffer, ..*old(self) }),
                    self.bounds_ok(),
                    y <= old(self).max_y && y < SCREEN_SIZE_Y ==> {
                        &&& forall|v: int| x <= v < w
                            ==> self.buffer@[#[trigger] cell_at(v, y as int)] == glyph(CH_BLANK)
                        &&& forall|i: int| 0 <= i < 2000
                                && (i < cell_at(x as int, y as int)
                                    || i >= cell_at(w as int, y as int))
                            ==> self.buffer@[i] == old(self).buffer@[i]
                    },
                    !(y <= old(self).max_y && y < SCREEN_SIZE_Y)
                        ==> self.buffer@ == old(self).buffer@,
                decreases limit - w,
            {
                self.__c_putchar_at(w, y, CH_BLANK);
                w = w + 1;
            }
        } else {
            self.__c_putchar_at(x, y, c);
        }
    }

    /// Prints a string at the given position without moving the
    /// cursor; what runs past the right screen edge is dropped.
    pub fn c_puts_at(&mut self, x: u32, y: u32, s: &str)
        requires
            old(self).bounds_ok(),
        ensures
            final(self).bounds_ok(),
            *final(self) == (Cio { buffer: final(self).buffer, ..*old(self) }),
    {
        let bytes = s.as_bytes();
        let mut xx = x;
        let mut i: usize = 0;
        while i < bytes.len()
            invariant
                i <= bytes@.len(),
                xx == x || xx <= self.max_x + 1,
                self.bounds_ok(),
                *self == (Cio { buffer: self.buffer, ..*old(self) }),
            decreases bytes@.len() - i,
        {
            let c = bytes[i];
            if xx <= self.max_x {
                self.c_putchar_at(xx, y, c);
                xx = xx + 1;
            }
            i = i + 1;
        }
    }

    /// Clears the whole screen to blanks.
    pub fn c_clearscreen(&mut self)
        requires
            old(self).bounds_ok(),
        ensures
            final(self).bounds_ok(),
            *final(self) == (Cio { buffer: final(self).buffer, ..*old(self) }),
            forall|x: int, y: int|
                0 <= x < old(self).max_x && 0 <= y < old(self).max_y && y < 25
                ==> final(self).buffer@[#[trigger] cell_at(x, y)] == glyph(CH_BLANK),
    {
        let mut y: u32 = 0;
        while y < self.max_y
            invariant
                self.bounds_ok(),
                y <= self.max_y,
                *self == (Cio { buffer: self.buffer, ..*old(self) }),
                forall|xx: int, yy: int|
                    0 <= xx < old(self).max_x && 0 <= yy < y && yy < 25
                    ==> self.buffer@[#[trigger] cell_at(xx, yy)] == glyph(CH_BLANK),
            decreases self.max_y - y,
        {
            let mut x: u32 = 0;
            while x < self.max_x
                invariant
                    self.bounds_ok(),
                    x <= self.max_x,
                    y < self.max_y,
                    *self == (Cio { buffer: self.buffer, ..*old(self) }),
                    forall|xx: int, yy: int|
                        0 <= xx < old(self).max_x && 0 <= yy < y && yy < 25
                        ==> self.buffer@[#[trigger] cell_at(xx, yy)] == glyph(CH_BLANK),
                    forall|xx: int| 0 <= xx < x && y < 25
                        ==> self.buffer@[#[trigger] cell_at(xx, y as int)] == glyph(CH_BLANK),
                decreases self.max_x - x,
            {
                self.__c_putchar_at(x, y, CH_BLANK);
                proof {
                    assert forall|xx: int, yy: int|
                        0 <= xx < 80 && 0 <= yy < y
                        implies #[trigger] cell_at(xx, yy) != cell_at(x as int, y as int)
                    by {
                        assert(cell_at(xx, yy) < cell_at(x as int, y as int))
                            by (nonlinear_arith)
                            requires 0 <= xx < 80, yy < y, 0 <= x;
                    }
                }
                x = x + 1;
            }
            y = y + 1;
        }
    }

    /// Clears the scroll area to blanks.
    pub fn c_clearscroll(&mut self)
        requires
            old(self).bounds_ok(),
        ensures
            final(self).bounds_ok(),
            *final(self) == (Cio { buffer: final(self).buffer, ..*old(self) }),
    {
        let mut y = self.scroll_min_y;
        while y < self.scroll_max_y
            invariant
                self.bounds_ok(),
                *self == (Cio { buffer: self.buffer, ..*old(self) }),
            decreases self.scroll_max_y - y,
        {
            let mut x = self.scroll_min_x;
            while x < self.scroll_max_x
                invariant
                    self.bounds_ok(),
                    *self == (Cio { buffer: self.buffer, ..*old(self) }),
                decreases self.scroll_max_x - x,
            {
                self.__c_putchar_at(x, y, CH_BLANK);
                x = x + 1;
            }
            y = y + 1;
        }
    }

    /// Scrolls the scroll area up by the given number of lines; asked
    /// for more lines than the area has, it clears the area and homes
    /// the cursor instead.
    pub fn c_scroll(&mut self, lines: u32)
        requires
            old(self).bounds_ok(),
            old(self).curr_x <= SCREEN_SIZE_X,
        ensures
            final(self).bounds_ok(),
            *final(self) == (Cio {
                buffer: final(self).buffer,
                curr_x: final(self).curr_x,
                curr_y: final(self).curr_y,
                cursor: final(self).cursor,
                ..*old(self)
            }),
            lines > old(self).scroll_max_y - old(self).scroll_min_y ==> {
                &&& final(self).curr_x == old(self).scroll_min_x
                &&& final(self).curr_y == old(self).scroll_min_y
            },
            lines <= old(self).scroll_max_y - old(self).scroll_min_y ==> {
                &&& final(self).curr_x == old(self).curr_x
                &&& final(self).curr_y == old(self).curr_y
            },
    {
        if lines > self.scroll_max_y - self.scroll_min_y {
            self.c_clearscroll();
            self.curr_x = self.scroll_min_x;
            self.curr_y = self.scroll_min_y;
            self.__c_setcursor();
            return;
        }

        let mut y = self.scroll_min_y;
        while y < self.scroll_max_y - lines
            invariant
                self.bounds_ok(),
                lines <= self.scroll_max_y - self.scroll_min_y,
                *self == (Cio { buffer: self.buffer, ..*old(self) }),
            decreases self.scroll_max_y - lines - y,
        {
            let mut x = self.scroll_min_x;
            while x < self.scroll_max_x
                invariant
                    self.bounds_ok(),
                    lines <= self.scroll_max_y - self.scroll_min_y,
                    y < self.scroll_max_y - lines,
                    *self == (Cio { buffer: self.buffer, ..*old(self) }),
                decreases self.scroll_max_x - x,
            {
                proof {
                    assert(0 <= cell_at(x as int, y as int + lines) < 2000)
                        by (nonlinear_arith)
                        requires
                            y + lines < self.scroll_max_y,
                            self.scroll_max_y <= 25,
                            x < self.scroll_max_x,
                            self.scroll_max_x <= 80,
                            0 <= x,
                            0 <= y,
                            0 <= lines;
                    assert(0 <= cell_at(x as int, y as int) < 2000) by (nonlinear_arith)
                        requires y < 25, x < 80, 0 <= x, 0 <= y;
                }
                let from = self.buffer[((y + lines) * SCREEN_SIZE_X + x) as usize];
                self.buffer.set((y * SCREEN_SIZE_X + x) as usize, from);
                x = x + 1;
            }
            y = y + 1;
        }
        let mut y = self.scroll_max_y - lines;
        while y < self.scroll_max_y
            invariant
                self.bounds_ok(),
                *self == (Cio { buffer: self.buffer, ..*old(self) }),
            decreases self.scroll_max_y - y,
        {
            let mut x = self.scroll_min_x;
            while x < self.scroll_max_x
                invariant
                    self.bounds_ok(),
                    y < self.scroll_max_y,
                    *self == (Cio { buffer: self.buffer, ..*old(self) }),
                decreases self.scroll_max_x - x,
            {
                self.__c_putchar_at(x, y, CH_BLANK);
                x = x + 1;
            }
            y = y + 1;
        }
    }

    /// Prints a character at the cursor and advances it, scrolling the
    /// region when the cursor has run off its bottom; newline pads the
    /// rest of the row and moves to the next line, carriage return
    /// rehomes the column.
    pub fn c_putchar(&mut self, c: u8)
        requires
            old(self).wf(),
            old(self).scroll_max_y >= 1,
        ensures
            final(self).wf(),
            *final(self) == (Cio {
                buffer: final(self).buffer,
                curr_x: final(self).curr_x,
                curr_y: final(self).curr_y,
                cursor: final(self).cursor,
                ..*old(self)
            }),
            c == CH_NL ==> final(self).curr_x == old(self).scroll_min_x,
            c == CH_CR ==> final(self).curr_x == old(self).scroll_min_x,
            c != CH_NL && c != CH_CR ==> ({
                let s0 = *old(self);
                if s0.curr_y < s0.scroll_max_y {
                    // The byte lands at the cursor cell (dropped off
                    // screen) and the cursor advances, wrapping at
                    // the region's right edge.
                    &&& (s0.curr_x < s0.max_x ==> final(self).buffer@ == s0.buffer@.update(
                        cell_at(s0.curr_x as int, s0.curr_y as int), glyph(c)))
                    &&& (s0.curr_x >= s0.max_x ==> final(self).buffer@ == s0.buffer@)
                    &&& (s0.curr_x < s0.scroll_max_x ==> final(self).curr_x == s0.curr_x + 1
                        && final(self).curr_y == s0.curr_y)
                    &&& (s0.curr_x == s0.scroll_max_x ==> final(self).curr_x == s0.scroll_min_x
                        && final(self).curr_y == s0.curr_y + 1)
                } else {
                    // The cursor had run off the region's bottom: the
                    // region scrolls one line first and the byte lands
                    // on its last row.
                    let x1 = if s0.scroll_min_y < s0.scroll_max_y {
                        s0.curr_x
                    } else {
                        s0.scroll_min_x
                    };
                    &&& (x1 < s0.max_x ==> final(self).buffer@[
                        cell_at(x1 as int, s0.scroll_max_y - 1)] == glyph(c))
                    &&& (x1 < s0.scroll_max_x ==> final(self).curr_x == x1 + 1
                        && final(self).curr_y == s0.scroll_max_y - 1)
                    &&& (x1 == s0.scroll_max_x ==> final(self).curr_x == s0.scroll_min_x
                        && final(self).curr_y == s0.scroll_max_y)
                }
            }),
    {
        if self.curr_y >= self.scroll_max_y {
            let diff = self.curr_y - self.scroll_max_y + 1;
            self.c_scroll(diff);
            self.curr_y = self.scroll_max_y - 1;
        }

        let mut x = self.curr_x;
        let y = self.curr_y;

        if c == CH_NL {
            while self.curr_x <= self.scroll_max_x
                invariant
                    self.bounds_ok(),
                    self.curr_y < self.scroll_max_y,
                    x == self.curr_x,
                    y == self.curr_y,
                    self.curr_x <= self.scroll_max_x + 1,
                    *self == (Cio {
                        buffer: self.buffer,
                        curr_x: self.curr_x,
                        ..*old(self)
                    }) || *self == (Cio {
                        buffer: self.buffer,
                        curr_x: self.curr_x,
                        curr_y: self.curr_y,
                        cursor: self.cursor,
                        ..*old(self)
                    }),
                decreases self.scroll_max_x + 1 - self.curr_x,
            {
                self.__c_putchar_at(x, y, CH_BLANK);
                self.curr_x = self.curr_x + 1;
                x = self.curr_x;
            }
            self.curr_x = self.scroll_min_x;
            self.curr_y = self.curr_y + 1;
        } else if c == CH_CR {
            self.curr_x = self.scroll_min_x;
        } else {
            self.__c_putchar_at(x, y, c);
            self.curr_x = self.curr_x + 1;
            if self.curr_x > self.scroll_max_x {
                self.curr_x = self.scroll_min_x;
                self.curr_y = self.curr_y + 1;
            }
        }
        self.__c_setcursor()
    }

    /// Prints a string at the cursor.
    pub fn c_puts(&mut self, s: &str)
        requires
            old(self).wf(),
            old(self).scroll_max_y >= 1,
        ensures
            final(self).wf(),
            final(self).scroll_min_x == old(self).scroll_min_x,
            final(self).scroll_min_y == old(self).scroll_min_y,
            final(self).scroll_max_x == old(self).scroll_max_x,
            final(self).scroll_max_y == old(self).scroll_max_y,
            final(self).max_x == old(self).max_x,
            final(self).max_y == old(self).max_y,
            final(self).min_x == old(self).min_x,
            final(self).min_y == old(self).min_y,
    {
        let bytes = s.as_bytes();
        let mut i: usize = 0;
        while i < bytes.len()
            invariant
                i <= bytes@.len(),
                self.wf(),
                self.scroll_max_y >= 1,
                self.scroll_min_x == old(self).scroll_min_x,
                self.scroll_min_y == old(self).scroll_min_y,
                self.scroll_max_x == old(self).scroll_max_x,
                self.scroll_max_y == old(self).scroll_max_y,
                self.max_x == old(self).max_x,
                self.max_y == old(self).max_y,
                self.min_x == old(self).min_x,
                self.min_y == old(self).min_y,
            decreases bytes@.len() - i,
        {
            let c = bytes[i];
            self.c_putchar(c);
            i = i + 1;
        }
    }
}

/// Exercises the console: cursor movement, characters, a scroll
/// region, and line output.
pub fn cio_test(w: &mut Cio)
    requires
        old(w).wf(),
        old(w).scroll_max_y >= 1,
        old(w).max_y >= 1,
    ensures
        final(w).wf(),
{
    w.c_moveto(0, 0);
    w.c_putchar(0x46u8);
    w.c_setscroll(0, 5, 80, 25);
    w.c_clearscroll();
    w.c_moveto(0, 19);
    w.c_puts("hello\n");
    w.c_puts("hello");
}

} // verus!
