//! Formatting of one dump line: hexadecimal field, alignment padding,
//! separator, ASCII field, newline.

use vstd::prelude::*;

verus! {

/// The space character, as a byte.
pub const SPACE: u8 = 0x20;

/// The newline terminating every line, as a byte.
pub const NEWLINE: u8 = 0x0A;

/// The substitute shown for a non-printable byte: `?`.
pub const SUBSTITUTE: u8 = 0x3F;

/// A byte renders as itself in the ASCII field iff it is a printable
/// 7-bit ASCII code: not a control character and not beyond `~`.
pub open spec fn is_printable(b: u8) -> bool {
    SPACE <= b && b <= 0x7E
}

/// What one byte shows as in the ASCII field.
pub open spec fn ascii_render(b: u8) -> u8 {
    if is_printable(b) {
        b
    } else {
        SUBSTITUTE
    }
}

/// The uppercase hexadecimal digit for a value below sixteen.
pub open spec fn hex_digit(n: u8) -> u8
    recommends
        n < 16,
{
    if n < 10 {
        (0x30 + n) as u8
    } else {
        (0x37 + n) as u8
    }
}

/// What one byte contributes to the hexadecimal field: two digits and a space.
pub open spec fn hex_of_byte(b: u8) -> Seq<u8> {
    seq![hex_digit(b / 16), hex_digit(b % 16), SPACE]
}

/// The hexadecimal field of a chunk: three characters per byte, in order.
pub open spec fn hex_field(chunk: Seq<u8>) -> Seq<u8>
    decreases chunk.len(),
{
    if chunk.len() == 0 {
        Seq::empty()
    } else {
        hex_of_byte(chunk[0]) + hex_field(chunk.drop_first())
    }
}

/// A run of `n` spaces.
pub open spec fn spaces(n: int) -> Seq<u8> {
    Seq::new(n as nat, |i: int| SPACE)
}

/// The ASCII field of a chunk: one rendered character per byte, in order.
pub open spec fn ascii_field(chunk: Seq<u8>) -> Seq<u8> {
    chunk.map_values(|b: u8| ascii_render(b))
}

/// One full dump line for a chunk of at most `width` bytes: the
/// hexadecimal field, padding for the missing byte slots so the ASCII
/// field always starts at offset `3 * width + 2`, two separator spaces,
/// the ASCII field, and a newline.
pub open spec fn line_of(chunk: Seq<u8>, width: int) -> Seq<u8>
    recommends
        chunk.len() <= width,
{
    hex_field(chunk) + spaces(3 * (width - chunk.len())) + spaces(2) + ascii_field(chunk)
        + seq![NEWLINE]
}

/// The uppercase hexadecimal digit for a value below sixteen.
pub fn hex_digit_of(n: u8) -> (d: u8)
    requires
        n < 16,
    ensures
        d == hex_digit(n),
{
    if n < 10 {
        0x30 + n
    } else {
        0x37 + n
    }
}

/// What one byte shows as in the ASCII field: itself if printable, `?` otherwise.
pub fn render_ascii(b: u8) -> (r: u8)
    ensures
        r == ascii_render(b),
{
    if SPACE <= b && b <= 0x7E {
        b
    } else {
        SUBSTITUTE
    }
}

/// How many newline bytes a piece of output holds; every emitted line
/// ends in exactly one.
pub open spec fn newline_count(s: Seq<u8>) -> nat
    decreases s.len(),
{
    if s.len() == 0 {
        0
    } else {
        (if s[0] == NEWLINE {
            1nat
        } else {
            0nat
        }) + newline_count(s.drop_first())
    }
}

/// Newlines are counted piecewise over a concatenation.
pub proof fn lemma_newline_count_add(a: Seq<u8>, b: Seq<u8>)
    ensures
        newline_count(a + b) == newline_count(a) + newline_count(b),
    decreases a.len(),
{
    if a.len() == 0 {
        assert(a + b =~= b);
    } else {
        assert((a + b).drop_first() =~= a.drop_first() + b);
        lemma_newline_count_add(a.drop_first(), b);
    }
}

/// A piece of output without a newline byte counts zero newlines.
proof fn lemma_newline_count_zero(s: Seq<u8>)
    requires
        forall|i: int| 0 <= i < s.len() ==> s[i] != NEWLINE,
    ensures
        newline_count(s) == 0,
    decreases s.len(),
{
    if s.len() > 0 {
        lemma_newline_count_zero(s.drop_first());
    }
}

/// The hexadecimal field never contains a newline: hexadecimal digits
/// and spaces only.
proof fn lemma_hex_field_no_newline(chunk: Seq<u8>)
    ensures
        newline_count(hex_field(chunk)) == 0,
    decreases chunk.len(),
{
    reveal_with_fuel(newline_count, 4);
    if chunk.len() > 0 {
        let b = chunk[0];
        assert(hex_of_byte(b).drop_first() =~= seq![hex_digit(b % 16), SPACE]);
        assert(hex_of_byte(b).drop_first().drop_first() =~= seq![SPACE]);
        assert(seq![SPACE].drop_first() =~= Seq::<u8>::empty());
        assert(newline_count(hex_of_byte(b)) == 0);
        lemma_hex_field_no_newline(chunk.drop_first());
        lemma_newline_count_add(hex_of_byte(b), hex_field(chunk.drop_first()));
    }
}

/// Every emitted line holds exactly one newline, the terminator: the
/// hexadecimal digits, the padding, the separator and the ASCII field
/// contribute none.
pub proof fn lemma_line_one_newline(chunk: Seq<u8>, width: int)
    requires
        chunk.len() <= width,
    ensures
        newline_count(line_of(chunk, width)) == 1,
{
    let hex = hex_field(chunk);
    let pad = spaces(3 * (width - chunk.len()));
    let sep = spaces(2);
    let asc = ascii_field(chunk);
    let nl = seq![NEWLINE];
    lemma_hex_field_no_newline(chunk);
    lemma_newline_count_zero(pad);
    lemma_newline_count_zero(sep);
    lemma_newline_count_zero(asc);
    assert(nl.drop_first() =~= Seq::<u8>::empty());
    reveal_with_fuel(newline_count, 2);
    assert(newline_count(nl) == 1);
    lemma_newline_count_add(hex, pad);
    lemma_newline_count_add(hex + pad, sep);
    lemma_newline_count_add(hex + pad + sep, asc);
    lemma_newline_count_add(hex + pad + sep + asc, nl);
}

/// The hexadecimal field takes exactly three characters per byte.
pub proof fn lemma_hex_field_len(chunk: Seq<u8>)
    ensures
        hex_field(chunk).len() == 3 * chunk.len(),
    decreases chunk.len(),
{
    if chunk.len() > 0 {
        lemma_hex_field_len(chunk.drop_first());
    }
}

/// Column alignment: however short the chunk, a line is laid out as the
/// hexadecimal field, spaces up to offset `3 * width + 2`, the ASCII
/// field — which therefore always begins at that same offset — and the
/// newline terminator.
pub proof fn lemma_column_alignment(chunk: Seq<u8>, width: int)
    requires
        chunk.len() <= width,
    ensures
        line_of(chunk, width).len() == 3 * width + 3 + chunk.len(),
        line_of(chunk, width).subrange(0, 3 * chunk.len() as int) == hex_field(chunk),
        forall|k: int|
            3 * chunk.len() <= k < 3 * width + 2 ==> line_of(chunk, width)[k] == SPACE,
        line_of(chunk, width).subrange(3 * width + 2, 3 * width + 2 + chunk.len() as int)
            == ascii_field(chunk),
        line_of(chunk, width).last() == NEWLINE,
{
    lemma_hex_field_len(chunk);
    assert(line_of(chunk, width).subrange(0, 3 * chunk.len() as int) =~= hex_field(chunk));
    assert(line_of(chunk, width).subrange(3 * width + 2, 3 * width + 2 + chunk.len() as int)
        =~= ascii_field(chunk));
}

/// Formatting is pure: what a line adds to the output is `line_of` the
/// chunk and the width alone — appending it after any two earlier
/// outputs, however different, adds the very same characters.
pub proof fn lemma_format_independent(
    before1: Seq<u8>,
    before2: Seq<u8>,
    chunk: Seq<u8>,
    width: int,
)
    requires
        chunk.len() <= width,
    ensures
        (before1 + line_of(chunk, width)).skip(before1.len() as int) == (before2 + line_of(
            chunk,
            width,
        )).skip(before2.len() as int),
{
    assert((before1 + line_of(chunk, width)).skip(before1.len() as int) =~= line_of(chunk, width));
    assert((before2 + line_of(chunk, width)).skip(before2.len() as int) =~= line_of(chunk, width));
}

/// Printability: a byte stands for itself in the ASCII field iff it is a
/// printable 7-bit ASCII code; every other byte is shown as `?`.
pub proof fn lemma_printability(b: u8)
    ensures
        (ascii_render(b) == b) <==> is_printable(b),
        !is_printable(b) ==> ascii_render(b) == SUBSTITUTE,
{
}

/// Extending a chunk by one byte extends its hexadecimal field by that
/// byte's three characters.
proof fn lemma_hex_field_push(chunk: Seq<u8>, b: u8)
    ensures
        hex_field(chunk.push(b)) == hex_field(chunk) + hex_of_byte(b),
    decreases chunk.len(),
{
    if chunk.len() == 0 {
        assert(chunk.push(b)[0] == b);
        assert(chunk.push(b).drop_first() =~= Seq::<u8>::empty());
        assert(hex_field(chunk.push(b)) == hex_of_byte(b) + hex_field(Seq::<u8>::empty()));
        assert(hex_field(chunk.push(b)) =~= hex_field(chunk) + hex_of_byte(b));
    } else {
        assert(chunk.push(b).drop_first() =~= chunk.drop_first().push(b));
        lemma_hex_field_push(chunk.drop_first(), b);
        assert(hex_field(chunk.push(b)) =~= hex_field(chunk) + hex_of_byte(b));
    }
}

/// Append one dump line for `chunk` to `out`, formatted for `width`
/// bytes per line.
pub fn print_line(out: &mut Vec<u8>, chunk: &[u8], width: usize)
    requires
        chunk@.len() <= width,
    ensures
        final(out)@ == old(out)@ + line_of(chunk@, width as int),
{
    let n = chunk.len();
    let ghost prefix = out@;
    let mut i: usize = 0;
    while i < n
        invariant
            i <= n,
            n == chunk@.len(),
            out@ == prefix + hex_field(chunk@.take(i as int)),
        decreases n - i,
    {
        let b = chunk[i];
        out.push(hex_digit_of(b / 16));
        out.push(hex_digit_of(b % 16));
        out.push(SPACE);
        proof {
            assert(chunk@.take(i + 1 as int) =~= chunk@.take(i as int).push(chunk@[i as int]));
            lemma_hex_field_push(chunk@.take(i as int), chunk@[i as int]);
            assert(out@ =~= prefix + hex_field(chunk@.take(i + 1 as int)));
        }
        i = i + 1;
    }
    assert(chunk@.take(n as int) =~= chunk@);
    let pad = width - n;
    let mut j: usize = 0;
    while j < pad
        invariant
            j <= pad,
            n == chunk@.len(),
            out@ == prefix + hex_field(chunk@) + spaces(3 * j),
        decreases pad - j,
    {
        out.push(SPACE);
        out.push(SPACE);
        out.push(SPACE);
        proof {
            assert(out@ =~= prefix + hex_field(chunk@) + spaces(3 * (j + 1)));
        }
        j = j + 1;
    }
    out.push(SPACE);
    out.push(SPACE);
    assert(out@ =~= prefix + hex_field(chunk@) + spaces(3 * (width - chunk@.len())) + spaces(2));
    let ghost before_ascii = out@;
    let mut k: usize = 0;
    while k < n
        invariant
            k <= n,
            n == chunk@.len(),
            out@ == before_ascii + ascii_field(chunk@.take(k as int)),
        decreases n - k,
    {
        out.push(render_ascii(chunk[k]));
        proof {
            assert(out@ =~= before_ascii + ascii_field(chunk@.take(k + 1 as int)));
        }
        k = k + 1;
    }
    assert(chunk@.take(n as int) =~= chunk@);
    out.push(NEWLINE);
    assert(out@ =~= prefix + line_of(chunk@, width as int));
}

} // verus!
