//! The table a timeline is written out as: tab-separated, one line for every
//! frame, one for every stretch that the dispatcher was blocked for.
use crate::timeline::{CapWait, Log, Rec, RecView, HEADER};
use vstd::prelude::*;
use vstd::string::StrSliceExecFns;

verus! {

/// The character of a decimal digit.
pub open spec fn digit(d: int) -> char {
    seq!['0', '1', '2', '3', '4', '5', '6', '7', '8', '9'][d]
}

/// The number a decimal digit stands for.
pub open spec fn digit_value(c: char) -> int {
    c as int - '0' as int
}

/// A number in decimal.
pub open spec fn decimal(n: int) -> Seq<char>
    decreases n,
{
    if n < 10 {
        seq![digit(n)]
    } else {
        decimal(n / 10).push(digit(n % 10))
    }
}

/// A number that may be negative, in decimal.
pub open spec fn signed_decimal(n: int) -> Seq<char> {
    if n < 0 {
        seq!['-'] + decimal(-n)
    } else {
        decimal(n)
    }
}

/// The number that decimal digits stand for.
pub open spec fn read_decimal(s: Seq<char>) -> int
    decreases s.len(),
{
    if s.len() == 0 {
        0
    } else {
        10 * read_decimal(s.drop_last()) + digit_value(s.last())
    }
}

/// A tab and a cell of the table.
pub open spec fn cell(s: Seq<char>) -> Seq<char> {
    seq!['\t'] + s
}

/// A flag in the table.
pub open spec fn flag(b: bool) -> Seq<char> {
    decimal(
        if b {
            1
        } else {
            0
        },
    )
}

/// The first `count` frames of a list, separated by commas.
pub open spec fn joined(list: Seq<usize>, count: int) -> Seq<char>
    decreases count,
{
    if count <= 0 {
        Seq::empty()
    } else if count == 1 {
        decimal(list[0] as int)
    } else {
        joined(list, count - 1) + seq![','] + decimal(list[count - 1] as int)
    }
}

/// A list of frames in the table.
pub open spec fn frame_list(list: Seq<usize>) -> Seq<char> {
    if list.len() == 0 {
        seq!['-']
    } else {
        joined(list, list.len() as int)
    }
}

/// The line of one frame.
pub open spec fn frame_line(idx: int, r: RecView) -> Seq<char> {
    "TL"@ + cell(decimal(idx)) + cell(seq![r.ftype]) + cell(flag(r.show)) + cell(
        decimal(r.submit as int),
    ) + cell(decimal(r.start as int)) + cell(decimal(r.refs_ready as int)) + cell(
        decimal(r.hdr_done as int),
    ) + cell(decimal(r.tile_done as int)) + cell(decimal(r.recon_done as int)) + cell(
        decimal(r.filters_done as int),
    ) + cell(decimal(r.slot_fulfil as int)) + cell(decimal(r.grain_done as int)) + cell(
        decimal(r.output as int),
    ) + cell(signed_decimal(r.wait_slot as int)) + cell(signed_decimal(r.wait_owner as int)) + cell(
        decimal(r.wait_us as int),
    ) + cell(flag(r.pipe)) + cell(frame_list(r.deps)) + seq!['\n']
}

/// The lines of the first `count` frames; one of which nothing was recorded
/// has none.
pub open spec fn frame_lines(rows: Seq<RecView>, count: int) -> Seq<char>
    decreases count,
{
    if count <= 0 {
        Seq::empty()
    } else if rows[count - 1].used {
        frame_lines(rows, count - 1) + frame_line(count - 1, rows[count - 1])
    } else {
        frame_lines(rows, count - 1)
    }
}

/// The line of one stretch that the dispatcher was blocked for.
pub open spec fn cap_line(c: CapWait) -> Seq<char> {
    "TL_CAP"@ + cell(c.kind@) + cell(decimal(c.begin as int)) + cell(decimal(c.end as int)) + seq![
        '\n',
    ]
}

/// The lines of the first `count` such stretches.
pub open spec fn cap_lines(caps: Seq<CapWait>, count: int) -> Seq<char>
    decreases count,
{
    if count <= 0 {
        Seq::empty()
    } else {
        cap_lines(caps, count - 1) + cap_line(caps[count - 1])
    }
}

/// The whole table, closed at time `now`.
pub open spec fn table(rows: Seq<RecView>, caps: Seq<CapWait>, now: int) -> Seq<char> {
    HEADER@ + frame_lines(rows, rows.len() as int) + cap_lines(caps, caps.len() as int)
        + "TL_END"@ + cell(decimal(now)) + seq!['\n']
}

/// Appends a text.
fn push_str(out: &mut Vec<char>, s: &str)
    ensures
        final(out)@ == old(out)@ + s@,
{
    let ghost before = out@;
    let n: usize = s.unicode_len();
    for i in 0..n
        invariant
            n == s@.len(),
            out@ == before + s@.take(i as int),
    {
        out.push(s.get_char(i));
        assert(s@.take(i + 1) =~= s@.take(i as int).push(s@[i as int]));
    }
    assert(s@.take(n as int) =~= s@);
}

/// The character of a decimal digit.
fn digit_of(d: u64) -> (c: char)
    requires
        d < 10,
    ensures
        c == digit(d as int),
{
    match d {
        0 => '0',
        1 => '1',
        2 => '2',
        3 => '3',
        4 => '4',
        5 => '5',
        6 => '6',
        7 => '7',
        8 => '8',
        _ => '9',
    }
}

/// Appends a number in decimal.
fn push_decimal(out: &mut Vec<char>, n: u64)
    ensures
        final(out)@ == old(out)@ + decimal(n as int),
    decreases n,
{
    let ghost before = out@;
    if n >= 10 {
        push_decimal(out, n / 10);
    }
    out.push(digit_of(n % 10));
    assert(out@ =~= before + decimal(n as int));
}

/// Appends a number that may be negative, in decimal.
fn push_signed(out: &mut Vec<char>, n: i64)
    ensures
        final(out)@ == old(out)@ + signed_decimal(n as int),
{
    let ghost before = out@;
    if n < 0 {
        out.push('-');
        let magnitude: u64 = (-(n as i128)) as u64;
        push_decimal(out, magnitude);
        assert(out@ =~= before + (seq!['-'] + decimal(-n)));
    } else {
        push_decimal(out, n as u64);
    }
}

/// Appends a cell that holds a number.
fn push_cell(out: &mut Vec<char>, n: u64)
    ensures
        final(out)@ == old(out)@ + cell(decimal(n as int)),
{
    let ghost before = out@;
    out.push('\t');
    push_decimal(out, n);
    assert(out@ =~= before + cell(decimal(n as int)));
}

/// Appends a cell that holds a flag.
fn push_flag(out: &mut Vec<char>, b: bool)
    ensures
        final(out)@ == old(out)@ + cell(flag(b)),
{
    if b {
        push_cell(out, 1);
    } else {
        push_cell(out, 0);
    }
}

/// Appends a cell that holds a number that may be negative.
fn push_signed_cell(out: &mut Vec<char>, n: i64)
    ensures
        final(out)@ == old(out)@ + cell(signed_decimal(n as int)),
{
    let ghost before = out@;
    out.push('\t');
    push_signed(out, n);
    assert(out@ =~= before + cell(signed_decimal(n as int)));
}

/// Appends a cell that holds a list of frames.
fn push_frames(out: &mut Vec<char>, list: &Vec<usize>)
    ensures
        final(out)@ == old(out)@ + cell(frame_list(list@)),
{
    let ghost before = out@;
    out.push('\t');
    if list.len() == 0 {
        out.push('-');
        assert(out@ =~= before + cell(frame_list(list@)));
        return;
    }
    let ghost start = out@;
    for i in 0..list.len()
        invariant
            out@ == start + joined(list@, i as int),
    {
        let ghost so_far = out@;
        if i > 0 {
            out.push(',');
        }
        push_decimal(out, list[i] as u64);
        assert(out@ =~= start + joined(list@, i + 1));
    }
    assert(out@ =~= before + cell(frame_list(list@)));
}

/// Appends the line of one frame.
fn push_frame(out: &mut Vec<char>, idx: usize, r: &Rec)
    ensures
        final(out)@ == old(out)@ + frame_line(idx as int, r@),
{
    let mut line: Vec<char> = Vec::new();
    push_str(&mut line, "TL");
    assert(line@ =~= "TL"@);
    push_cell(&mut line, idx as u64);
    let ghost so_far = line@;
    line.push('\t');
    line.push(r.ftype);
    assert(line@ =~= so_far + cell(seq![r.ftype]));
    push_flag(&mut line, r.show);
    push_cell(&mut line, r.submit);
    push_cell(&mut line, r.start);
    push_cell(&mut line, r.refs_ready);
    push_cell(&mut line, r.hdr_done);
    push_cell(&mut line, r.tile_done);
    push_cell(&mut line, r.recon_done);
    push_cell(&mut line, r.filters_done);
    push_cell(&mut line, r.slot_fulfil);
    push_cell(&mut line, r.grain_done);
    push_cell(&mut line, r.output);
    push_signed_cell(&mut line, r.wait_slot as i64);
    push_signed_cell(&mut line, r.wait_owner);
    push_cell(&mut line, r.wait_us);
    push_flag(&mut line, r.pipe);
    push_frames(&mut line, &r.deps);
    let ghost cells = line@;
    line.push('\n');
    assert(line@ =~= cells + seq!['\n']);
    out.append(&mut line);
}

/// Appends the line of one stretch that the dispatcher was blocked for.
fn push_cap(out: &mut Vec<char>, c: &CapWait)
    ensures
        final(out)@ == old(out)@ + cap_line(*c),
{
    let ghost before = out@;
    push_str(out, "TL_CAP");
    out.push('\t');
    push_str(out, c.kind);
    push_cell(out, c.begin);
    push_cell(out, c.end);
    out.push('\n');
    assert(out@ =~= before + cap_line(*c));
}

impl Log {
    /// The table of the whole timeline, closed at time `now`.
    pub fn dump(&self, now: u64) -> (out: Vec<char>)
        ensures
            out@ == table(self.rows(), self.caps@, now as int),
    {
        let mut out: Vec<char> = Vec::new();
        push_str(&mut out, HEADER);
        assert(out@ =~= HEADER@);
        let ghost rows = self.rows();
        assert(out@ =~= HEADER@ + frame_lines(rows, 0));
        for i in 0..self.frames.len()
            invariant
                rows == self.rows(),
                out@ == HEADER@ + frame_lines(rows, i as int),
        {
            assert(rows[i as int] == self.frames@[i as int]@);
            if self.frames[i].used {
                push_frame(&mut out, i, &self.frames[i]);
                assert(out@ =~= HEADER@ + frame_lines(rows, i + 1));
            }
        }
        let ghost top = out@;
        assert(out@ =~= top + cap_lines(self.caps@, 0));
        for i in 0..self.caps.len()
            invariant
                out@ == top + cap_lines(self.caps@, i as int),
        {
            push_cap(&mut out, &self.caps[i]);
            assert(out@ =~= top + cap_lines(self.caps@, i + 1));
        }
        push_str(&mut out, "TL_END");
        push_cell(&mut out, now);
        out.push('\n');
        assert(out@ =~= table(self.rows(), self.caps@, now as int));
        out
    }
}

/// A number written in decimal reads back as itself.
pub proof fn decimals_read_back(n: int)
    requires
        n >= 0,
    ensures
        read_decimal(decimal(n)) == n,
    decreases n,
{
    assert forall|d: int| 0 <= d < 10 implies digit_value(#[trigger] digit(d)) == d by {}
    if n < 10 {
        assert(decimal(n).drop_last() =~= Seq::<char>::empty());
        assert(read_decimal(Seq::<char>::empty()) == 0);
        assert(digit_value(digit(n)) == n);
    } else {
        decimals_read_back(n / 10);
        assert(decimal(n).drop_last() =~= decimal(n / 10));
        assert(digit_value(digit(n % 10)) == n % 10);
    }
}

} // verus!
