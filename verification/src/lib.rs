//! Fixed-width hexadecimal-plus-ASCII dump of a byte stream.
//!
//! Each output line shows up to `width` bytes: first their values as
//! two-digit uppercase hexadecimal, each followed by a space, then padding
//! so the ASCII column always starts at the same offset, then two separator
//! spaces, then one character per byte (non-printable bytes shown as `?`),
//! then a newline.

pub mod format;

use vstd::prelude::*;
use crate::format::line_of;
use crate::format::print_line;
use crate::format::newline_count;
use crate::format::lemma_line_one_newline;
use crate::format::lemma_newline_count_add;

verus! {

/// The input partitioned into consecutive chunks: every chunk but the last
/// has exactly `width` bytes; the last has between one and `width`; empty
/// input has no chunks.
pub open spec fn chunks_of(data: Seq<u8>, width: int) -> Seq<Seq<u8>>
    recommends
        width >= 1,
    decreases data.len(),
    when width >= 1
{
    if data.len() == 0 {
        Seq::empty()
    } else if data.len() <= width {
        seq![data]
    } else {
        seq![data.take(width)] + chunks_of(data.skip(width), width)
    }
}

/// The whole dump of `data` at `width` bytes per line: one line per chunk,
/// in order; empty input produces no output.
pub open spec fn dump_of(data: Seq<u8>, width: int) -> Seq<u8>
    recommends
        width >= 1,
    decreases data.len(),
    when width >= 1
{
    if data.len() == 0 {
        Seq::empty()
    } else if data.len() <= width {
        line_of(data, width)
    } else {
        line_of(data.take(width), width) + dump_of(data.skip(width), width)
    }
}

/// Dump `data` as hexadecimal and ASCII, `width` bytes per line.
///
/// Every input byte appears in exactly one line, in order; the last line
/// is padded when the input does not fill it.
pub fn dump(data: &[u8], width: usize) -> (out: Vec<u8>)
    requires
        width >= 1,
    ensures
        out@ == dump_of(data@, width as int),
{
    let mut out: Vec<u8> = Vec::new();
    let n = data.len();
    let mut i: usize = 0;
    proof {
        assert(data@.skip(0) =~= data@);
        assert(out@ + dump_of(data@, width as int) =~= dump_of(data@, width as int));
    }
    while i < n
        invariant
            width >= 1,
            i <= n,
            n == data@.len(),
            dump_of(data@, width as int) == out@ + dump_of(data@.skip(i as int), width as int),
        decreases n - i,
    {
        let remaining = n - i;
        let take = if remaining < width {
            remaining
        } else {
            width
        };
        let mut chunk: Vec<u8> = Vec::new();
        let mut j: usize = 0;
        while j < take
            invariant
                j <= take,
                i + take <= n,
                n == data@.len(),
                chunk@ == data@.subrange(i as int, i + j as int),
            decreases take - j,
        {
            chunk.push(data[i + j]);
            assert(chunk@ =~= data@.subrange(i as int, i + j + 1 as int));
            j = j + 1;
        }
        let ghost out_before = out@;
        print_line(&mut out, chunk.as_slice(), width);
        proof {
            let w = width as int;
            let s = data@.skip(i as int);
            let rest = data@.skip(i + take as int);
            if remaining <= width {
                assert(chunk@ =~= s);
                assert(rest.len() == 0);
                assert(dump_of(s, w) =~= line_of(chunk@, w) + dump_of(rest, w));
            } else {
                assert(s.take(w) =~= chunk@);
                assert(s.skip(w) =~= rest);
                assert(dump_of(s, w) == line_of(chunk@, w) + dump_of(rest, w));
            }
            assert(out_before + (line_of(chunk@, w) + dump_of(rest, w)) =~= (out_before + line_of(
                chunk@,
                w,
            )) + dump_of(rest, w));
        }
        i = i + take;
    }
    proof {
        assert(data@.skip(n as int).len() == 0);
        assert(out@ + dump_of(data@.skip(n as int), width as int) =~= out@);
    }
    out
}

/// The concatenation of one formatted line per chunk, in order.
pub open spec fn lines_of(chunks: Seq<Seq<u8>>, width: int) -> Seq<u8>
    decreases chunks.len(),
{
    if chunks.len() == 0 {
        Seq::empty()
    } else {
        line_of(chunks.first(), width) + lines_of(chunks.drop_first(), width)
    }
}

/// Coverage and partition: the chunks of the input concatenate back to
/// the input exactly; every chunk but the last holds exactly `width`
/// bytes, the last between one and `width`; empty input has no chunks.
pub proof fn lemma_chunks_partition(data: Seq<u8>, width: int)
    requires
        width >= 1,
    ensures
        chunks_of(data, width).flatten() == data,
        forall|k: int|
            0 <= k < chunks_of(data, width).len() - 1 ==> (#[trigger] chunks_of(data, width)[k]).len()
                == width,
        data.len() > 0 ==> chunks_of(data, width).len() >= 1 && 1 <= chunks_of(
            data,
            width,
        ).last().len() <= width,
        data.len() == 0 ==> chunks_of(data, width).len() == 0,
    decreases data.len(),
{
    let cs = chunks_of(data, width);
    if data.len() == 0 {
        assert(cs.flatten() =~= data);
    } else if data.len() <= width {
        assert(cs.drop_first() =~= Seq::<Seq<u8>>::empty());
        assert(cs.flatten() == data + Seq::<Seq<u8>>::empty().flatten());
        assert(cs.flatten() =~= data);
    } else {
        lemma_chunks_partition(data.skip(width), width);
        let tail = chunks_of(data.skip(width), width);
        assert(cs.first() == data.take(width));
        assert(cs.drop_first() =~= tail);
        assert(cs.flatten() == data.take(width) + tail.flatten());
        assert(cs.flatten() =~= data);
        assert(data.skip(width).len() > 0);
        assert(cs.last() == tail.last());
        assert forall|k: int| 0 <= k < cs.len() - 1 implies (#[trigger] cs[k]).len() == width by {
            if k == 0 {
                assert(cs[0] == data.take(width));
            } else {
                assert(cs[k] == tail[k - 1]);
            }
        }
    }
}

/// Each line of the dump is formatted from its own chunk alone: the dump
/// is the concatenation, in order, of one line per chunk.
pub proof fn lemma_dump_lines(data: Seq<u8>, width: int)
    requires
        width >= 1,
    ensures
        dump_of(data, width) == lines_of(chunks_of(data, width), width),
    decreases data.len(),
{
    let cs = chunks_of(data, width);
    if data.len() == 0 {
    } else if data.len() <= width {
        assert(cs.first() == data);
        assert(cs.drop_first() =~= Seq::<Seq<u8>>::empty());
        assert(lines_of(cs, width) == line_of(data, width) + lines_of(
            Seq::<Seq<u8>>::empty(),
            width,
        ));
        assert(lines_of(cs, width) =~= line_of(data, width));
    } else {
        lemma_dump_lines(data.skip(width), width);
        let tail = chunks_of(data.skip(width), width);
        assert(cs.first() == data.take(width));
        assert(cs.drop_first() =~= tail);
        assert(lines_of(cs, width) == line_of(data.take(width), width) + lines_of(tail, width));
    }
}

/// Line count: a dump of `n` input bytes at `width` bytes per line ends
/// exactly `ceil(n / width)` lines with a newline; empty input produces
/// no line at all.
pub proof fn lemma_line_count(data: Seq<u8>, width: int)
    requires
        width >= 1,
    ensures
        data.len() == 0 ==> newline_count(dump_of(data, width)) == 0,
        data.len() > 0 ==> newline_count(dump_of(data, width)) == (data.len() + width - 1)
            / width,
    decreases data.len(),
{
    let n = data.len() as int;
    if data.len() == 0 {
    } else if data.len() <= width {
        lemma_line_one_newline(data, width);
        vstd::arithmetic::div_mod::lemma_basic_div(n - 1, width);
        vstd::arithmetic::div_mod::lemma_div_plus_one(n - 1, width);
        assert((n + width - 1) / width == 1);
    } else {
        lemma_line_count(data.skip(width), width);
        lemma_line_one_newline(data.take(width), width);
        lemma_newline_count_add(
            line_of(data.take(width), width),
            dump_of(data.skip(width), width),
        );
        vstd::arithmetic::div_mod::lemma_div_plus_one(n - 1, width);
        assert((n + width - 1) / width == 1 + (n - 1) / width);
    }
}

/// What one attempt to read from the byte source came back with.
#[derive(Clone, Copy, Debug, PartialEq, Eq, Structural)]
pub enum ReadEvent {
    /// The source handed over this many bytes; zero means end-of-file.
    Bytes(usize),
    /// The source was interrupted before reading anything; the attempt
    /// is transient and must be retried.
    Interrupted,
    /// The source failed with a genuine error.
    Failed,
}

/// What the reader does next after one read attempt.
#[derive(Clone, Copy, Debug, PartialEq, Eq, Structural)]
pub enum ReadAction {
    /// Keep reading into the buffer, which now holds this many bytes.
    Fill(usize),
    /// The chunk is complete with this many bytes; zero means the stream
    /// was already exhausted.
    Chunk(usize),
    /// Give up: the source failed.
    Abort,
}

/// Decide, after one read attempt, whether the chunk being accumulated is
/// complete. `filled` bytes of a buffer of `capacity` bytes were full
/// before the attempt. A chunk is complete when the buffer is full or the
/// source reports end-of-file; an interrupted attempt is retried with
/// nothing accumulated or lost; a failure aborts.
pub fn read_step(filled: usize, capacity: usize, event: ReadEvent) -> (action: ReadAction)
    requires
        filled <= capacity,
        event matches ReadEvent::Bytes(n) ==> n <= capacity - filled,
    ensures
        match event {
            ReadEvent::Bytes(n) => action == if n == 0 {
                ReadAction::Chunk(filled)
            } else if filled + n == capacity {
                ReadAction::Chunk(capacity)
            } else {
                ReadAction::Fill((filled + n) as usize)
            },
            ReadEvent::Interrupted => action == ReadAction::Fill(filled),
            ReadEvent::Failed => action == ReadAction::Abort,
        },
{
    match event {
        ReadEvent::Bytes(n) => {
            if n == 0 {
                ReadAction::Chunk(filled)
            } else {
                let now = filled + n;
                if now == capacity {
                    ReadAction::Chunk(capacity)
                } else {
                    ReadAction::Fill(now)
                }
            }
        },
        ReadEvent::Interrupted => ReadAction::Fill(filled),
        ReadEvent::Failed => ReadAction::Abort,
    }
}

} // verus!
