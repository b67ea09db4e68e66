//! What holds of every reader, whatever the grid and wherever the cursor.

use crate::grid::GridView;
use crate::stream::{
    lemma_cursor_inside, lemma_moved_to, lemma_remaining, scan_bit, scan_bits, ReaderView,
};
use vstd::prelude::*;

verus! {

/// The sum of the sizes of a run of reads.
pub open spec fn chunks_total(chunks: Seq<nat>) -> nat
    decreases chunks.len(),
{
    if chunks.len() == 0 {
        0
    } else {
        chunks[0] + chunks_total(chunks.drop_first())
    }
}

/// The bytes that a run of reads returns, one read for each size, put
/// together in the order of the reads.
pub open spec fn read_in_chunks(s: ReaderView, chunks: Seq<nat>) -> Seq<u8>
    decreases chunks.len(),
{
    if chunks.len() == 0 {
        Seq::empty()
    } else {
        s.read_bytes(chunks[0]) + read_in_chunks(s.after_read(chunks[0]), chunks.drop_first())
    }
}

/// The reader after a run of reads, one for each size.
pub open spec fn after_chunks(s: ReaderView, chunks: Seq<nat>) -> ReaderView
    decreases chunks.len(),
{
    if chunks.len() == 0 {
        s
    } else {
        after_chunks(s.after_read(chunks[0]), chunks.drop_first())
    }
}

/// A read leaves the reader well formed, over the same grid, and takes from
/// the bits that are left eight for each byte, or all of them.
pub proof fn lemma_after_read(s: ReaderView, n: nat)
    requires
        s.wf(),
    ensures
        s.after_read(n).wf(),
        s.after_read(n).grid == s.grid,
        s.after_read(n).exhausted() <==> 8 * n >= s.remaining_bits(),
        s.after_read(n).remaining_bits() == if 8 * n < s.remaining_bits() {
            s.remaining_bits() - 8 * n
        } else {
            0
        },
{
    lemma_remaining(s);
    if 8 * n < s.remaining_bits() {
        lemma_moved_to(s, s.position() + 8 * n);
    } else {
        lemma_remaining(s.finished());
    }
}

/// What a read comes to: it returns no more bytes than the buffer holds and
/// puts them in front of it; the buffer keeps its length; a read that
/// returns fewer bytes than the buffer holds leaves the reader at the end;
/// and a reader at the end returns 0, writes nothing and stays as it is.
pub proof fn lemma_read_summary(s: ReaderView, buffer: Seq<u8>)
    requires
        s.wf(),
    ensures
        s.read_count(buffer.len()) <= buffer.len(),
        s.read_count(buffer.len()) <= s.stored_count(buffer.len()) <= buffer.len(),
        s.buffer_after(buffer).len() == buffer.len(),
        s.buffer_after(buffer).take(s.read_count(buffer.len()) as int) == s.read_bytes(
            buffer.len(),
        ),
        s.read_count(buffer.len()) < buffer.len() ==> s.after_read(buffer.len()).exhausted(),
        s.exhausted() ==> s.read_count(buffer.len()) == 0 && s.buffer_after(buffer) == buffer
            && s.after_read(buffer.len()) == s,
{
    lemma_remaining(s);
    lemma_after_read(s, buffer.len());
    assert(s.buffer_after(buffer).take(s.read_count(buffer.len()) as int) =~= s.read_bytes(
        buffer.len(),
    ));
    if s.exhausted() {
        assert(s.buffer_after(buffer) =~= buffer);
    }
}

/// A read into an empty buffer returns 0 and, while a bit is left, leaves
/// the reader where it stands.
pub proof fn lemma_empty_read(s: ReaderView)
    requires
        s.wf(),
        s.remaining_bits() > 0,
    ensures
        s.read_count(0) == 0,
        s.buffer_after(Seq::empty()) == Seq::<u8>::empty(),
        s.after_read(0) == s,
{
    lemma_remaining(s);
    lemma_cursor_inside(s);
    assert(s.buffer_after(Seq::empty()) =~= Seq::<u8>::empty());
}

/// Two reads in a row return, one behind the other, what one read of both
/// sizes together returns, and leave the reader where that one read would.
pub proof fn lemma_split_read(s: ReaderView, first: nat, second: nat)
    requires
        s.wf(),
    ensures
        s.read_bytes(first) + s.after_read(first).read_bytes(second) == s.read_bytes(
            first + second,
        ),
        s.after_read(first).after_read(second) == s.after_read(first + second),
{
    lemma_remaining(s);
    lemma_after_read(s, first);
    let mid = s.after_read(first);
    let whole = s.read_bytes(first + second);
    let pieces = s.read_bytes(first) + mid.read_bytes(second);
    if 8 * first < s.remaining_bits() {
        lemma_moved_to(s, s.position() + 8 * first);
        assert(mid.position() == s.position() + 8 * first);
        assert(mid.bits() == s.bits());
        assert(pieces.len() == whole.len());
        assert forall|i: int| 0 <= i < whole.len() implies pieces[i] == whole[i] by {
            if i >= first {
                assert(mid.position() + 8 * (i - first) == s.position() + 8 * i);
                assert(mid.stream_byte(i - first) == s.stream_byte(i));
            }
        }
        assert(pieces =~= whole);
    } else {
        assert(mid.read_bytes(second) =~= Seq::<u8>::empty());
        assert(pieces =~= whole);
    }
}

/// A stream drawn in pieces is the stream drawn at once: whatever the sizes
/// of a run of reads, the bytes they return, put together, are the bytes
/// that one read of the sizes' sum returns.
pub proof fn lemma_chunked_read(s: ReaderView, chunks: Seq<nat>)
    requires
        s.wf(),
    ensures
        read_in_chunks(s, chunks) == s.read_bytes(chunks_total(chunks)),
        chunks.len() > 0 ==> after_chunks(s, chunks) == s.after_read(chunks_total(chunks)),
    decreases chunks.len(),
{
    lemma_remaining(s);
    if chunks.len() == 0 {
        assert(s.read_bytes(0) =~= Seq::<u8>::empty());
    } else {
        let rest = chunks.drop_first();
        let mid = s.after_read(chunks[0]);
        lemma_after_read(s, chunks[0]);
        lemma_remaining(mid);
        lemma_chunked_read(mid, rest);
        lemma_split_read(s, chunks[0], chunks_total(rest));
        if rest.len() == 0 {
            assert(mid.read_bytes(0) =~= Seq::<u8>::empty());
            assert(after_chunks(mid, rest) == mid);
        }
    }
}

/// Once a read has returned fewer bytes than its buffer holds, the reader is
/// at the end: every later read returns 0, writes nothing and changes
/// nothing.
pub proof fn lemma_exhaustion_is_final(s: ReaderView, short: nat, later: Seq<u8>)
    requires
        s.wf(),
        s.read_count(short) < short,
    ensures
        s.after_read(short).exhausted(),
        s.after_read(short).read_count(later.len()) == 0,
        s.after_read(short).buffer_after(later) == later,
        s.after_read(short).after_read(later.len()) == s.after_read(short),
{
    lemma_after_read(s, short);
    let end = s.after_read(short);
    lemma_remaining(end);
    assert(end.buffer_after(later) =~= later);
}

/// A reader at the end stays there: a read returns 0, writes nothing and
/// changes nothing.
pub proof fn lemma_end_is_final(s: ReaderView, buffer: Seq<u8>)
    requires
        s.wf(),
        s.exhausted(),
    ensures
        s.read_count(buffer.len()) == 0,
        s.buffer_after(buffer) == buffer,
        s.after_read(buffer.len()) == s,
{
    lemma_remaining(s);
    assert(s.buffer_after(buffer) =~= buffer);
}

/// The alpha channel has no part in the stream: two grids of the same
/// dimensions whose pixels agree in red, green and blue give the same bits.
pub proof fn lemma_alpha_is_ignored(a: GridView, b: GridView)
    requires
        a.width == b.width,
        a.height == b.height,
        forall|x: int, y: int, c: int|
            0 <= x < a.width && 0 <= y < a.height && 0 <= c < 3 ==> #[trigger] a.channel(x, y, c)
                == b.channel(x, y, c),
    ensures
        scan_bits(a) == scan_bits(b),
{
    let w = a.width as int;
    let h = a.height as int;
    assert forall|k: int| 0 <= k < 3 * a.width * a.height implies scan_bit(a, k) == scan_bit(
        b,
        k,
    ) by {
        assert(3 * a.width * a.height == 3 * (w * h)) by (nonlinear_arith)
            requires
                w == a.width,
                h == a.height,
        ;
        assert(h > 0) by (nonlinear_arith)
            requires
                0 < 3 * (w * h),
                h >= 0,
                w >= 0,
        ;
        let q = k / 3;
        vstd::arithmetic::div_mod::lemma_fundamental_div_mod(q, h);
        vstd::arithmetic::div_mod::lemma_mod_bound(q, h);
        let x = q / h;
        let y = q % h;
        assert(0 <= x < w) by (nonlinear_arith)
            requires
                q == h * x + y,
                0 <= y < h,
                0 <= q < w * h,
        ;
        assert(a.channel(x, y, k % 3) == b.channel(x, y, k % 3));
    }
    assert(scan_bits(a) =~= scan_bits(b));
}

/// Two readers that stand at the same place over grids that differ in alpha
/// alone behave alike: a read returns the same count and the same bytes,
/// and leaves the same in the buffer.
pub proof fn lemma_alpha_changes_no_read(s: ReaderView, t: ReaderView, buffer: Seq<u8>)
    requires
        s.grid.width == t.grid.width,
        s.grid.height == t.grid.height,
        s.column == t.column,
        s.row == t.row,
        s.channel == t.channel,
        forall|x: int, y: int, c: int|
            0 <= x < s.grid.width && 0 <= y < s.grid.height && 0 <= c < 3
                ==> #[trigger] s.grid.channel(x, y, c) == t.grid.channel(x, y, c),
    ensures
        s.read_count(buffer.len()) == t.read_count(buffer.len()),
        s.read_bytes(buffer.len()) == t.read_bytes(buffer.len()),
        s.buffer_after(buffer) == t.buffer_after(buffer),
{
    lemma_alpha_is_ignored(s.grid, t.grid);
    assert(s.read_bytes(buffer.len()) =~= t.read_bytes(buffer.len()));
    assert(s.buffer_after(buffer) =~= t.buffer_after(buffer));
}

/// A reader at the start of a grid of `width` by `height` pixels gives
/// `width * height * 3 / 8` bytes in all, rounded down: that is what a read
/// returns whose buffer holds at least as many, and the reader is at the end
/// after it.
pub proof fn lemma_total_byte_count(s: ReaderView, n: nat)
    requires
        s.column == 0,
        s.row == 0,
        s.channel == 0,
        8 * n >= s.grid.width * s.grid.height * 3,
    ensures
        s.remaining_bits() == s.grid.width * s.grid.height * 3,
        s.read_count(n) == (s.grid.width * s.grid.height * 3) / 8,
        s.after_read(n).exhausted(),
{
    assert(3 * s.grid.width * s.grid.height == s.grid.width * s.grid.height * 3)
        by (nonlinear_arith);
    assert(s.column * s.grid.height == 0) by (nonlinear_arith)
        requires
            s.column == 0,
    ;
}

} // verus!
