//! The hidden stream as mathematics: which bit each channel of the grid
//! gives, in which order the bits come, and what a read of a given size
//! hands out and leaves behind.

use crate::bits::{
    bit_at, byte_value, lemma_byte_value_agrees, lemma_zero_padded, packed_bytes, zero_padded,
};
use crate::grid::GridView;
use vstd::prelude::*;

verus! {

/// The `k`-th bit of the grid's stream. The pixels go column by column, each
/// column from its first row to its last, and each pixel gives three bits:
/// the lowest bit of its red, of its green and of its blue channel. The
/// alpha channel gives none.
pub open spec fn scan_bit(grid: GridView, k: int) -> bool {
    let pixel = k / 3;
    grid.channel(pixel / (grid.height as int), pixel % (grid.height as int), k % 3) % 2 == 1
}

/// All bits of the grid's stream, in the order of the scan: three for every
/// pixel.
pub open spec fn scan_bits(grid: GridView) -> Seq<bool> {
    Seq::new(3 * grid.width * grid.height, |k: int| scan_bit(grid, k))
}

/// A reader as plain values: the grid, and the channel whose bit comes next.
pub struct ReaderView {
    /// The grid that is read.
    pub grid: GridView,
    /// The column of the next pixel; the grid's width once the grid is used up.
    pub column: nat,
    /// The row of the next pixel.
    pub row: nat,
    /// The next channel of that pixel: 0 red, 1 green, 2 blue.
    pub channel: nat,
}

impl ReaderView {
    /// The cursor names a channel of a pixel of the grid, or stands at the
    /// end: in the column behind the last, in row 0 and at channel 0. A grid
    /// without rows has no pixel to name; its cursor starts in row 0 at
    /// channel 0.
    pub open spec fn wf(self) -> bool {
        &&& self.channel < 3
        &&& self.column <= self.grid.width
        &&& if self.column < self.grid.width && self.grid.height > 0 {
            self.row < self.grid.height
        } else {
            self.row == 0 && self.channel == 0
        }
    }

    /// The reader has nothing more to give: every later read returns 0.
    pub open spec fn exhausted(self) -> bool {
        self.column == self.grid.width
    }

    /// The bits of the whole grid, in the order of the scan.
    pub open spec fn bits(self) -> Seq<bool> {
        scan_bits(self.grid)
    }

    /// The number of bits in the whole grid.
    pub open spec fn total_bits(self) -> nat {
        3 * self.grid.width * self.grid.height
    }

    /// The number of bits that lie before the cursor.
    pub open spec fn position(self) -> nat {
        (self.column * self.grid.height + self.row) * 3 + self.channel
    }

    /// The number of bits from the cursor to the end of the grid.
    pub open spec fn remaining_bits(self) -> int {
        self.total_bits() - self.position()
    }

    /// The next `k` bits of the stream, from the cursor on.
    pub open spec fn taken_bits(self, k: int) -> Seq<bool> {
        self.bits().subrange(self.position() as int, self.position() + k)
    }

    /// The `i`-th byte from the cursor on: eight bits of the stream, the
    /// first of them as the lowest bit. Where the grid ends inside the byte,
    /// the missing bits are zero.
    pub open spec fn stream_byte(self, i: int) -> u8 {
        byte_value(self.bits(), self.position() + 8 * i) as u8
    }

    /// How many bytes a read into a buffer of `n` bytes returns: `n`, or the
    /// number of whole bytes that are left if that is less.
    pub open spec fn read_count(self, n: nat) -> nat {
        if 8 * n <= self.remaining_bits() {
            n
        } else {
            (self.remaining_bits() / 8) as nat
        }
    }

    /// How many bytes of the buffer a read into `n` bytes writes: those it
    /// returns and, where the grid ends inside a byte, that byte too.
    pub open spec fn stored_count(self, n: nat) -> nat {
        if 8 * n <= self.remaining_bits() {
            n
        } else {
            ((self.remaining_bits() + 7) / 8) as nat
        }
    }

    /// The bytes that a read into a buffer of `n` bytes returns.
    pub open spec fn read_bytes(self, n: nat) -> Seq<u8> {
        Seq::new(self.read_count(n), |i: int| self.stream_byte(i))
    }

    /// The buffer after a read into it: the bytes written in front, the rest
    /// as it was.
    pub open spec fn buffer_after(self, buffer: Seq<u8>) -> Seq<u8> {
        Seq::new(
            buffer.len(),
            |i: int|
                if i < self.stored_count(buffer.len()) {
                    self.stream_byte(i)
                } else {
                    buffer[i]
                },
        )
    }

    /// A rough measure of how far the cursor has come, in hundredths: the
    /// product of its column and its row against the number of pixels. It is
    /// meant for display only, and is 0 for a grid without pixels.
    pub open spec fn progress(self) -> nat {
        if self.grid.width * self.grid.height == 0 {
            0
        } else {
            (self.column * self.row * 100) / (self.grid.width * self.grid.height)
        }
    }

    /// The same reader with its cursor on the bit before which `p` bits lie.
    pub open spec fn moved_to(self, p: nat) -> ReaderView {
        ReaderView {
            grid: self.grid,
            column: (p / 3) / self.grid.height,
            row: (p / 3) % self.grid.height,
            channel: p % 3,
        }
    }

    /// The same reader with its cursor at the end.
    pub open spec fn finished(self) -> ReaderView {
        ReaderView { grid: self.grid, column: self.grid.width, row: 0, channel: 0 }
    }

    /// The reader after a read into a buffer of `n` bytes: moved on by eight
    /// bits for each byte if bits are left after that, and at the end
    /// otherwise.
    pub open spec fn after_read(self, n: nat) -> ReaderView {
        if 8 * n < self.remaining_bits() {
            self.moved_to(self.position() + 8 * n)
        } else {
            self.finished()
        }
    }
}

/// The number of bits before a channel of a pixel of the grid is below the
/// number of bits in the grid.
pub proof fn lemma_position_in_grid(width: nat, height: nat, x: nat, y: nat, c: nat)
    requires
        x < width,
        y < height,
        c < 3,
    ensures
        0 <= (x * height + y) * 3 + c < 3 * width * height,
{
    assert(x * height + height <= width * height) by (nonlinear_arith)
        requires
            x + 1 <= width,
    ;
    assert(3 * width * height == 3 * (width * height)) by (nonlinear_arith);
}

/// The number of bits before a channel of a pixel tells the pixel and the
/// channel.
pub proof fn lemma_position_names_cursor(height: nat, x: nat, y: nat, c: nat)
    requires
        y < height,
        c < 3,
    ensures
        ({
            let p = ((x * height + y) * 3 + c) as int;
            &&& p % 3 == c
            &&& p / 3 == x * height + y
            &&& (p / 3) / (height as int) == x
            &&& (p / 3) % (height as int) == y
        }),
{
    let q = (x * height + y) as int;
    let p = q * 3 + c;
    vstd::arithmetic::div_mod::lemma_fundamental_div_mod_converse(p, 3, q, c as int);
    vstd::arithmetic::div_mod::lemma_fundamental_div_mod_converse(
        q,
        height as int,
        x as int,
        y as int,
    );
}

/// A cursor inside the grid lies before the end, and moving a reader to the
/// place where it stands changes nothing.
pub proof fn lemma_cursor_inside(s: ReaderView)
    requires
        s.wf(),
        s.column < s.grid.width,
        s.grid.height > 0,
    ensures
        0 <= s.position() < s.total_bits(),
        s.moved_to(s.position()) == s,
        s.bits()[s.position() as int] == (s.grid.channel(
            s.column as int,
            s.row as int,
            s.channel as int,
        ) % 2 == 1),
{
    lemma_position_in_grid(s.grid.width, s.grid.height, s.column, s.row, s.channel);
    lemma_position_names_cursor(s.grid.height, s.column, s.row, s.channel);
}

/// A reader at the end has no bit left, and a well-formed reader never has
/// fewer than none.
pub proof fn lemma_remaining(s: ReaderView)
    requires
        s.wf(),
    ensures
        0 <= s.position() <= s.total_bits(),
        s.remaining_bits() >= 0,
        s.exhausted() ==> s.remaining_bits() == 0,
        s.remaining_bits() > 0 ==> s.column < s.grid.width && s.grid.height > 0,
        s.bits().len() == s.total_bits(),
{
    assert(3 * s.grid.width * s.grid.height == 3 * (s.grid.width * s.grid.height))
        by (nonlinear_arith);
    assert(s.grid.width * s.grid.height >= 0) by (nonlinear_arith);
    if s.column < s.grid.width && s.grid.height > 0 {
        lemma_position_in_grid(s.grid.width, s.grid.height, s.column, s.row, s.channel);
    } else if s.column < s.grid.width {
        assert(s.column * s.grid.height == 0) by (nonlinear_arith)
            requires
                s.grid.height == 0,
        ;
        assert(s.grid.width * s.grid.height == 0) by (nonlinear_arith)
            requires
                s.grid.height == 0,
        ;
    } else {
        assert(s.column * s.grid.height == s.grid.width * s.grid.height);
    }
}

/// Moving a reader to a place inside the grid puts its cursor on a channel
/// of a pixel, with that many bits before it.
pub proof fn lemma_moved_to(s: ReaderView, p: nat)
    requires
        p < s.total_bits(),
    ensures
        s.moved_to(p).wf(),
        s.moved_to(p).grid == s.grid,
        s.moved_to(p).position() == p,
        !s.moved_to(p).exhausted(),
        s.moved_to(p).remaining_bits() == s.total_bits() - p,
{
    let w = s.grid.width as int;
    let h = s.grid.height as int;
    assert(3 * s.grid.width * s.grid.height == 3 * (w * h)) by (nonlinear_arith)
        requires
            w == s.grid.width,
            h == s.grid.height,
    ;
    assert(h > 0) by (nonlinear_arith)
        requires
            0 < 3 * (w * h),
            h >= 0,
            w >= 0,
    ;
    let q = (p as int) / 3;
    vstd::arithmetic::div_mod::lemma_fundamental_div_mod(p as int, 3);
    vstd::arithmetic::div_mod::lemma_fundamental_div_mod(q, h);
    vstd::arithmetic::div_mod::lemma_mod_bound(q, h);
    let x = q / h;
    let y = q % h;
    assert(q < w * h);
    assert(0 <= x < w) by (nonlinear_arith)
        requires
            q == h * x + y,
            0 <= y < h,
            0 <= q < w * h,
    ;
    assert(x * h == h * x) by (nonlinear_arith);
}

/// What a sink holds that was given `taken` bits of a stream from place
/// `from` on: its whole bytes are the stream's bytes from there, and once it
/// has the stream's last bit and is filled up with zero bits, so is the byte
/// in which the stream ends.
pub proof fn lemma_window_bytes(bits: Seq<bool>, from: int, taken: int, window: Seq<bool>)
    requires
        0 <= from,
        0 <= taken,
        from + taken <= bits.len(),
        window == bits.subrange(from, from + taken),
    ensures
        packed_bytes(window).len() == taken / 8,
        forall|i: int|
            0 <= i < taken / 8 ==> #[trigger] packed_bytes(window)[i] == byte_value(
                bits,
                from + 8 * i,
            ) as u8,
        from + taken == bits.len() ==> {
            &&& packed_bytes(zero_padded(window)).len() == (taken + 7) / 8
            &&& forall|i: int|
                0 <= i < (taken + 7) / 8 ==> #[trigger] packed_bytes(zero_padded(window))[i]
                    == byte_value(bits, from + 8 * i) as u8
        },
{
    assert forall|i: int| 0 <= i < taken / 8 implies #[trigger] packed_bytes(window)[i]
        == byte_value(bits, from + 8 * i) as u8 by {
        assert forall|k: int| 8 * i <= k < 8 * i + 8 implies #[trigger] bit_at(window, k)
            == bit_at(bits, k - 8 * i + (from + 8 * i)) by {
            assert(window[k] == bits[from + k]);
        }
        lemma_byte_value_agrees(window, 8 * i, bits, from + 8 * i);
    }
    if from + taken == bits.len() {
        let padded = zero_padded(window);
        lemma_zero_padded(window);
        assert forall|i: int| 0 <= i < (taken + 7) / 8 implies #[trigger] packed_bytes(padded)[i]
            == byte_value(bits, from + 8 * i) as u8 by {
            assert forall|k: int| 8 * i <= k < 8 * i + 8 implies #[trigger] bit_at(padded, k)
                == bit_at(bits, k - 8 * i + (from + 8 * i)) by {
                assert(bit_at(padded, k) == bit_at(window, k));
                if k < taken {
                    assert(window[k] == bits[from + k]);
                }
            }
            lemma_byte_value_agrees(padded, 8 * i, bits, from + 8 * i);
        }
    }
}

} // verus!
