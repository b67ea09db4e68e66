//! The reader: it draws the hidden stream from a grid, as many bytes at a
//! time as the caller's buffer holds, and resumes where it stopped.

use crate::bits::lemma_zero_padded;
use crate::grid::PixelGrid;
use crate::laws::lemma_read_summary;
use crate::sink::{sink_bits, BitSink};
use crate::stream::{
    lemma_moved_to, lemma_position_in_grid, lemma_position_names_cursor, lemma_remaining,
    lemma_window_bytes, ReaderView,
};
use vstd::prelude::*;

verus! {

/// How many bytes `read_to_end` draws at a time.
const CHUNK_LEN: usize = 4096;

/// Where the next bit comes from.
struct Cursor {
    x: u32,
    y: u32,
    c: usize,
}

/// A reader of the byte stream hidden in a grid.
pub struct ByteReader {
    input: PixelGrid,
    cursor: Cursor,
}

impl View for ByteReader {
    type V = ReaderView;

    closed spec fn view(&self) -> ReaderView {
        ReaderView {
            grid: self.input@,
            column: self.cursor.x as nat,
            row: self.cursor.y as nat,
            channel: self.cursor.c as nat,
        }
    }
}

/// Copies `src` over the front of `dst`.
fn store(dst: &mut [u8], src: &Vec<u8>)
    requires
        src@.len() <= old(dst)@.len(),
    ensures
        final(dst)@ == src@ + old(dst)@.skip(src@.len() as int),
{
    let n: usize = src.len();
    let mut i: usize = 0;
    while i < n
        invariant
            n == src@.len(),
            i <= n <= dst@.len(),
            dst@.len() == old(dst)@.len(),
            forall|k: int| 0 <= k < i ==> dst@[k] == src@[k],
            forall|k: int| i <= k < dst@.len() ==> dst@[k] == old(dst)@[k],
        decreases n - i,
    {
        dst[i] = src[i];
        i += 1;
    }
    assert(dst@ =~= src@ + old(dst)@.skip(src@.len() as int));
}

/// How far a read has come when its cursor is at channel `c` of the pixel in
/// column `x` and row `y`: the sink holds the bits of the stream from where
/// the read began up to the cursor, which are `bytes_read` whole bytes and
/// `bits_read` bits of the next, and a byte is begun only where the buffer of
/// `limit` bytes has room for it.
spec fn scanned(
    start: ReaderView,
    sink: BitSink,
    x: u32,
    y: u32,
    c: usize,
    bytes_read: usize,
    bits_read: u8,
    limit: usize,
) -> bool {
    let taken = 8 * bytes_read + bits_read;
    &&& (x * start.grid.height + y) * 3 + c == start.position() + taken
    &&& start.position() + taken <= start.total_bits()
    &&& sink_bits(sink) == start.taken_bits(taken)
    &&& bits_read < 8
    &&& bytes_read <= limit
    &&& bits_read > 0 ==> bytes_read < limit
}

impl ByteReader {
    #[verifier::type_invariant]
    spec fn inv(self) -> bool {
        self@.wf()
    }

    /// A reader at the start of the grid's stream.
    pub fn of_image(image: PixelGrid) -> (reader: ByteReader)
        ensures
            reader@ == (ReaderView { grid: image@, column: 0, row: 0, channel: 0 }),
            reader@.wf(),
    {
        ByteReader { input: image, cursor: Cursor { x: 0, y: 0, c: 0 } }
    }

    /// Fills `b` with the next bytes of the stream and returns how many it
    /// wrote: `b.len()`, or fewer where the grid ends first. The reader then
    /// stands behind the last bit that it used. Where the grid ends inside a
    /// byte, that byte is filled up with zero bits and stored behind the
    /// bytes counted, but not counted itself; the rest of `b` stays as it was.
    #[verifier::loop_isolation(false)]
    pub fn read(&mut self, b: &mut [u8]) -> (count: usize)
        ensures
            count == old(self)@.read_count(old(b)@.len()),
            final(b)@ == old(self)@.buffer_after(old(b)@),
            final(self)@ == old(self)@.after_read(old(b)@.len()),
            final(self)@.wf(),
            count <= old(b)@.len(),
            final(b)@.len() == old(b)@.len(),
            final(b)@.take(count as int) == old(self)@.read_bytes(old(b)@.len()),
            count < old(b)@.len() ==> final(self)@.exhausted(),
            old(self)@.exhausted() ==> count == 0 && final(b)@ == old(b)@ && final(self)@ == old(
                self,
            )@,
    {
        proof {
            use_type_invariant(&*self);
            lemma_remaining(self@);
            lemma_read_summary(self@, b@);
        }
        let ghost start = self@;
        let (width, height): (u32, u32) = self.input.dimensions();
        let bytes_to_read: usize = b.len();
        let mut sink = BitSink::new();
        let mut bits_read: u8 = 0;
        let mut bytes_read: usize = 0;
        let mut x: u32 = self.cursor.x;
        let mut y: u32 = self.cursor.y;
        let mut c: usize = self.cursor.c;
        assert(sink_bits(sink) =~= start.taken_bits(0));
        while x < width
            invariant
                self@ == start,
                b@ == old(b)@,
                x <= width,
                c < 3,
                if x < width && height > 0 {
                    y < height
                } else {
                    y == 0 && c == 0
                },
                scanned(start, sink, x, y, c, bytes_read, bits_read, bytes_to_read),
            decreases width - x,
        {
            while y < height
                invariant
                    self@ == start,
                    b@ == old(b)@,
                    x < width,
                    y <= height,
                    c < 3,
                    y == height ==> c == 0,
                    scanned(start, sink, x, y, c, bytes_read, bits_read, bytes_to_read),
                decreases height - y,
            {
                let rgba: [u8; 4] = self.input.pixel(x, y);
                while c < 3
                    invariant
                        self@ == start,
                        b@ == old(b)@,
                        x < width,
                        y < height,
                        c <= 3,
                        scanned(start, sink, x, y, c, bytes_read, bits_read, bytes_to_read),
                    decreases 3 - c,
                {
                    proof {
                        lemma_position_in_grid(
                            width as nat,
                            height as nat,
                            x as nat,
                            y as nat,
                            c as nat,
                        );
                        lemma_position_names_cursor(height as nat, x as nat, y as nat, c as nat);
                    }
                    if bytes_read >= bytes_to_read {
                        self.cursor = Cursor { x, y, c };
                        let bytes: Vec<u8> = sink.into_bytes();
                        proof {
                            lemma_window_bytes(
                                start.bits(),
                                start.position() as int,
                                8 * bytes_read,
                                sink_bits(sink),
                            );
                        }
                        store(b, &bytes);
                        assert(b@ =~= start.buffer_after(old(b)@));
                        return bytes_read;
                    }
                    let value: u8 = rgba[c];
                    let bit: u8 = value & 0x01;
                    assert((bit > 0) == (value % 2 == 1)) by (bit_vector)
                        requires
                            bit == value & 0x01,
                    ;
                    let ghost taken = 8 * bytes_read + bits_read;
                    assert(start.bits()[start.position() + taken] == (bit > 0));
                    sink.push_bit(bit > 0, c, x, y);
                    assert(sink_bits(sink) =~= start.taken_bits(taken + 1));
                    bits_read += 1;
                    if bits_read == 8 {
                        bits_read = 0;
                        bytes_read += 1;
                    }
                    c += 1;
                }
                c = 0;
                y += 1;
            }
            proof {
                assert((x + 1) * height == x * height + height) by (nonlinear_arith);
            }
            y = 0;
            x += 1;
        }
        let ghost taken = 8 * bytes_read + bits_read;
        proof {
            assert(3 * width * height == (width * height) * 3) by (nonlinear_arith);
            assert(taken == start.remaining_bits());
            lemma_window_bytes(
                start.bits(),
                start.position() as int,
                taken,
                start.taken_bits(taken),
            );
            lemma_zero_padded(start.taken_bits(taken));
        }
        self.cursor = Cursor { x: width, y: 0, c: 0 };
        if !sink.is_aligned() {
            sink.align();
        }
        let bytes: Vec<u8> = sink.into_bytes();
        store(b, &bytes);
        assert(b@ =~= start.buffer_after(old(b)@));
        bytes_read
    }

    /// Draws the rest of the stream and puts it behind what `out` holds.
    /// Returns the number of bytes added: the whole bytes that were left.
    /// Bits behind the last whole byte are passed over, and the reader is at
    /// the end afterwards.
    pub fn read_to_end(&mut self, out: &mut Vec<u8>) -> (count: usize)
        ensures
            count == old(self)@.remaining_bits() / 8,
            final(out)@ == old(out)@ + old(self)@.read_bytes(count as nat),
            final(self)@ == old(self)@.finished(),
            final(self)@.wf(),
            old(self)@.position() == 0 ==> count == (old(self)@.grid.width * old(
                self,
            )@.grid.height * 3) / 8,
    {
        proof {
            use_type_invariant(&*self);
            lemma_remaining(self@);
            assert(3 * self@.grid.width * self@.grid.height == self@.grid.width
                * self@.grid.height * 3) by (nonlinear_arith);
        }
        let ghost start = self@;
        let ghost left = start.remaining_bits();
        let ghost done: int = 0;
        let first: usize = out.len();
        let mut chunk: Vec<u8> = vec![0u8; CHUNK_LEN];
        assert(out@ =~= old(out)@ + start.read_bytes(0));
        loop
            invariant
                start == old(self)@,
                start.wf(),
                left == start.remaining_bits(),
                first == old(out)@.len(),
                chunk@.len() == CHUNK_LEN,
                0 <= done,
                8 * done <= left,
                out@ == old(out)@ + start.read_bytes(done as nat),
                self@.wf(),
                self@.grid == start.grid,
                if self@.exhausted() {
                    self@ == start.finished() && done == left / 8
                } else {
                    self@.position() == start.position() + 8 * done
                },
            ensures
                self@ == start.finished(),
                done == left / 8,
                out@ == old(out)@ + start.read_bytes(done as nat),
                first == old(out)@.len(),
            decreases left / 8 - done,
        {
            let ghost before = self@;
            proof {
                lemma_remaining(before);
            }
            let n: usize = self.read(chunk.as_mut_slice());
            if n == 0 {
                break ;
            }
            let ghost kept = out@;
            let mut i: usize = 0;
            while i < n
                invariant
                    i <= n <= chunk@.len(),
                    out@ == kept + chunk@.take(i as int),
                decreases n - i,
            {
                out.push(chunk[i]);
                i += 1;
                assert(chunk@.take(i as int) =~= chunk@.take(i - 1).push(chunk@[i - 1]));
            }
            proof {
                assert(chunk@.take(n as int) =~= before.read_bytes(CHUNK_LEN as nat));
                assert forall|k: int| 0 <= k < n implies #[trigger] before.stream_byte(k)
                    == start.stream_byte(done + k) by {
                    assert(before.position() + 8 * k == start.position() + 8 * (done + k));
                }
                assert(out@ =~= old(out)@ + start.read_bytes((done + n) as nat));
                if 8 * CHUNK_LEN < before.remaining_bits() {
                    lemma_moved_to(before, (before.position() + 8 * CHUNK_LEN) as nat);
                }
                done = done + n;
            }
        }
        out.len() - first
    }

    /// A rough measure of how far the reader has come, in hundredths, for
    /// display: the product of the cursor's column and row against the number
    /// of pixels. It does not grow evenly, and it tells nothing that a read
    /// depends on.
    pub fn progress(&self) -> (percent: u8)
        ensures
            percent == self@.progress(),
            percent < 100,
    {
        proof {
            use_type_invariant(self);
        }
        let (width, height): (u32, u32) = self.input.dimensions();
        if width == 0 || height == 0 {
            assert(width * height == 0) by (nonlinear_arith)
                requires
                    width == 0 || height == 0,
            ;
            return 0;
        }
        let x: u128 = self.cursor.x as u128;
        let y: u128 = self.cursor.y as u128;
        let w: u128 = width as u128;
        let h: u128 = height as u128;
        assert(0 < w * h <= 0xffff_ffff * 0xffff_ffff && x * y < w * h) by (nonlinear_arith)
            requires
                0 < w <= 0xffff_ffff,
                0 < h <= 0xffff_ffff,
                0 <= x <= w,
                0 <= y < h,
        ;
        let percent: u128 = (x * y * 100) / (w * h);
        assert(percent < 100) by (nonlinear_arith)
            requires
                percent == (x * y * 100) / (w * h),
                0 <= x * y < w * h,
        ;
        percent as u8
    }
}

} // verus!
