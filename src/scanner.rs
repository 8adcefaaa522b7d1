//! The scan-copy step: one chunk of a readable source at a time.
use vstd::prelude::*;

use crate::model::{
    decimal, failure_line, initial_view, is_line_span, lemma_scan_line, lemma_scan_plain, number_prefix,
    pending_prefix, scan_out, scan_state, source_out, source_state, ScanView, DOLLAR, NEWLINE,
};
use vstd::utf8::encode_utf8;

verus! {

/// Whether the next byte written begins a new line.
#[derive(Clone, Copy, PartialEq, Eq, Structural)]
pub enum LineState {
    StartOfLine,
    MiddleOfLine,
}

/// Run-long scan state: line position, next line number, and the options.
pub struct Scanner {
    state: LineState,
    line: u64,
    numbers: bool,
    ends: bool,
}

impl View for Scanner {
    type V = ScanView;

    closed spec fn view(&self) -> ScanView {
        ScanView {
            at_line_start: self.state == LineState::StartOfLine,
            line: self.line as nat,
            numbers: self.numbers,
            ends: self.ends,
        }
    }
}

/// Appends the decimal digits of `n`.
fn push_decimal(n: u64, out: &mut Vec<u8>)
    ensures
        final(out)@ == old(out)@ + decimal(n as nat),
    decreases n,
{
    if n >= 10 {
        push_decimal(n / 10, out);
    }
    let digit: u8 = (n % 10) as u8;
    out.push(digit + 48);
    proof {
        if n >= 10 {
            assert(decimal(n as nat) == decimal((n / 10) as nat).push((n % 10 + 48) as u8));
        } else {
            assert(decimal(n as nat) == seq![(n + 48) as u8]);
        }
    }
    assert(final(out)@ =~= old(out)@ + decimal(n as nat));
}

/// Appends the annotation for line `n`.
fn push_number_prefix(n: u64, out: &mut Vec<u8>)
    ensures
        final(out)@ == old(out)@ + number_prefix(n as nat),
{
    let mut i: usize = 0;
    while i < 5
        invariant
            0 <= i <= 5,
            out@ == old(out)@ + Seq::new(i as nat, |j: int| 32u8),
        decreases 5 - i,
    {
        out.push(32);
        i = i + 1;
        assert(out@ =~= old(out)@ + Seq::new(i as nat, |j: int| 32u8));
    }
    push_decimal(n, out);
    out.push(9);
    assert(final(out)@ =~= old(out)@ + number_prefix(n as nat));
}

impl Scanner {
    /// A scanner at the start of the first line, numbering from 1.
    pub fn new(numbers: bool, ends: bool) -> (r: Scanner)
        ensures
            r@ == initial_view(numbers, ends),
    {
        Scanner { state: LineState::StartOfLine, line: 1, numbers, ends }
    }

    /// The number the next annotated line gets.
    pub fn line_counter(&self) -> (r: u64)
        ensures
            r == self@.line,
    {
        self.line
    }

    /// The current line position.
    pub fn line_state(&self) -> (r: LineState)
        ensures
            (r == LineState::StartOfLine) == self@.at_line_start,
    {
        self.state
    }

    /// Handles one chunk of unread bytes of a source: writes the annotation
    /// due, then the bytes up to the first terminator (or all of them), then
    /// the end marker and terminator if one was found. Returns how many bytes
    /// of the chunk were consumed.
    pub fn feed_chunk(&mut self, chunk: &[u8], out: &mut Vec<u8>) -> (consumed: usize)
        requires
            old(self)@.line < u64::MAX,
        ensures
            is_line_span(chunk@, consumed as int),
            final(out)@ == old(out)@ + scan_out(old(self)@, chunk@.take(consumed as int)),
            final(self)@ == scan_state(old(self)@, chunk@.take(consumed as int)),
    {
        let n = chunk.len();
        if n == 0 {
            assert(chunk@.take(0) =~= Seq::<u8>::empty());
            return 0;
        }
        let ghost s0 = self@;
        let ghost out0 = out@;
        if self.state == LineState::StartOfLine && self.numbers {
            push_number_prefix(self.line, out);
            self.line = self.line + 1;
        }
        let mut i: usize = 0;
        while i < n && chunk[i] != NEWLINE
            invariant
                0 <= i <= n,
                n == chunk@.len(),
                forall|j: int| 0 <= j < i ==> chunk@[j] != NEWLINE,
                out@ == out0 + pending_prefix(s0) + chunk@.take(i as int),
            decreases n - i,
        {
            out.push(chunk[i]);
            i = i + 1;
            assert(out@ =~= out0 + pending_prefix(s0) + chunk@.take(i as int));
        }
        if i < n {
            if self.ends {
                out.push(DOLLAR);
            }
            out.push(NEWLINE);
            self.state = LineState::StartOfLine;
            proof {
                let line = chunk@.take(i as int);
                assert(chunk@.take(i + 1) =~= line.push(NEWLINE));
                lemma_scan_line(s0, line);
                assert(out@ =~= out0 + scan_out(s0, chunk@.take(i + 1)));
            }
            i + 1
        } else {
            self.state = LineState::MiddleOfLine;
            proof {
                lemma_scan_plain(s0, chunk@.take(i as int));
                assert(chunk@.take(i as int) =~= chunk@);
            }
            assert(out@ =~= out0 + scan_out(s0, chunk@.take(i as int)));
            i
        }
    }

    /// Writes `cat: {message}` and a terminator for a source that could not be
    /// opened, first ending the current line if the output stands mid-line.
    /// The next byte starts a new line; no line number is used.
    pub fn report_failure(&mut self, message: &String, out: &mut Vec<u8>)
        ensures
            final(out)@ == old(out)@ + source_out(old(self)@, Err(message@)),
            final(self)@ == source_state(old(self)@, Err(message@)),
    {
        if self.state == LineState::MiddleOfLine {
            out.push(NEWLINE);
        }
        let ghost out0 = out@;
        out.push(99);
        out.push(97);
        out.push(116);
        out.push(58);
        out.push(32);
        let bytes = message.as_str().as_bytes();
        let mut i: usize = 0;
        while i < bytes.len()
            invariant
                0 <= i <= bytes@.len(),
                bytes@ == encode_utf8(message@),
                out@ == out0 + seq![99u8, 97u8, 116u8, 58u8, 32u8] + bytes@.take(i as int),
            decreases bytes@.len() - i,
        {
            out.push(bytes[i]);
            i = i + 1;
            assert(out@ =~= out0 + seq![99u8, 97u8, 116u8, 58u8, 32u8] + bytes@.take(i as int));
        }
        out.push(NEWLINE);
        self.state = LineState::StartOfLine;
        assert(bytes@.take(i as int) =~= bytes@);
        assert(out@ =~= out0 + failure_line(message@));
    }
}

} // verus!
