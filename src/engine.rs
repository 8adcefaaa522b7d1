//! The scan-copy engine over a sequence of sources, and its configuration.
use vstd::prelude::*;
use vstd::slice::slice_subrange;

use crate::model::{
    initial_view, lemma_scan_line_bound, lemma_scan_split, lemma_total_len_prefix, run_out,
    run_state, scan_out, scan_state, total_len,
};
use crate::scanner::Scanner;

verus! {

/// The chunk size `cat` reads sources with.
pub const DEFAULT_CAPACITY: usize = 8192;

/// Where a source's bytes come from.
pub enum InputSource {
    StdIn,
    File(String),
}

/// A source as the engine sees it: its bytes, or why it could not be opened.
pub open spec fn source_view(r: Result<Vec<u8>, String>) -> Result<Seq<u8>, Seq<char>> {
    match r {
        Ok(bytes) => Ok(bytes@),
        Err(message) => Err(message@),
    }
}

/// The sources as the engine sees them.
pub open spec fn sources_view(ins: Seq<Result<Vec<u8>, String>>) -> Seq<Result<Seq<u8>, Seq<char>>> {
    ins.map_values(|r: Result<Vec<u8>, String>| source_view(r))
}

/// The message for a file that could not be opened: `{path}: {error}`.
pub fn open_failure_message(path: &str, error: &str) -> (r: String)
    ensures
        r@ == path@ + seq![':', ' '] + error@,
{
    let mut r = String::from_str(path);
    r.append(": ");
    r.append(error);
    proof {
        reveal_strlit(": ");
    }
    assert(r@ =~= path@ + seq![':', ' '] + error@);
    r
}

/// Copies all of `bytes` through the scanner, in chunks of at most `capacity`
/// bytes, each chunk starting where the last one was consumed.
fn drain(scanner: &mut Scanner, bytes: &Vec<u8>, capacity: usize, out: &mut Vec<u8>)
    requires
        capacity > 0,
        old(scanner)@.line + bytes@.len() <= u64::MAX,
    ensures
        final(scanner)@ == scan_state(old(scanner)@, bytes@),
        final(out)@ == old(out)@ + scan_out(old(scanner)@, bytes@),
{
    let ghost s0 = scanner@;
    let ghost out0 = out@;
    let n = bytes.len();
    let mut pos: usize = 0;
    assert(bytes@.take(0) =~= Seq::<u8>::empty());
    while pos < n
        invariant
            pos <= n,
            n == bytes@.len(),
            capacity > 0,
            s0.line + n <= u64::MAX,
            out@ == out0 + scan_out(s0, bytes@.take(pos as int)),
            scanner@ == scan_state(s0, bytes@.take(pos as int)),
        decreases n - pos,
    {
        proof {
            lemma_scan_line_bound(s0, bytes@.take(pos as int));
        }
        let end: usize = if n - pos > capacity {
            pos + capacity
        } else {
            n
        };
        let chunk = slice_subrange(bytes.as_slice(), pos, end);
        let k = scanner.feed_chunk(chunk, out);
        proof {
            lemma_scan_split(s0, bytes@.take(pos as int), chunk@.take(k as int));
            assert(bytes@.take(pos as int) + chunk@.take(k as int) =~= bytes@.take(pos + k));
        }
        pos = pos + k;
    }
    assert(bytes@.take(n as int) =~= bytes@);
}

/// Concatenates `ins` onto `out`, reading each source in chunks of at most
/// `capacity` bytes. The output does not depend on `capacity`.
pub fn cat_buffered(
    ins: &Vec<Result<Vec<u8>, String>>,
    capacity: usize,
    out: &mut Vec<u8>,
    line_nums: bool,
    line_ends: bool,
)
    requires
        capacity > 0,
        total_len(sources_view(ins@)) < u64::MAX,
    ensures
        final(out)@ == old(out)@ + run_out(initial_view(line_nums, line_ends), sources_view(ins@)),
{
    let ghost srcs = sources_view(ins@);
    let ghost s0 = initial_view(line_nums, line_ends);
    let ghost out0 = out@;
    let mut scanner = Scanner::new(line_nums, line_ends);
    let mut i: usize = 0;
    assert(srcs.take(0) =~= Seq::<Result<Seq<u8>, Seq<char>>>::empty());
    while i < ins.len()
        invariant
            i <= ins@.len(),
            capacity > 0,
            srcs == sources_view(ins@),
            srcs.len() == ins@.len(),
            total_len(srcs) < u64::MAX,
            out@ == out0 + run_out(s0, srcs.take(i as int)),
            scanner@ == run_state(s0, srcs.take(i as int)),
            scanner@.line <= 1 + total_len(srcs.take(i as int)),
        decreases ins@.len() - i,
    {
        let ghost before = scanner@;
        proof {
            assert(srcs.take(i + 1).drop_last() =~= srcs.take(i as int));
            assert(srcs.take(i + 1).last() == source_view(ins@[i as int]));
            lemma_total_len_prefix(srcs, i + 1);
        }
        match &ins[i] {
            Ok(bytes) => {
                drain(&mut scanner, bytes, capacity, out);
                proof {
                    lemma_scan_line_bound(before, bytes@);
                }
            },
            Err(message) => {
                scanner.report_failure(message, out);
            },
        }
        i = i + 1;
        assert(out@ =~= out0 + run_out(s0, srcs.take(i as int)));
    }
    assert(srcs.take(i as int) =~= srcs);
}

/// Concatenates `ins` onto `out`: each source's bytes in order, a
/// `cat: {message}` line for each that could not be opened, lines numbered
/// across all sources when `line_nums`, ends marked with `$` when `line_ends`.
pub fn cat(ins: Vec<Result<Vec<u8>, String>>, out: &mut Vec<u8>, line_nums: bool, line_ends: bool)
    requires
        total_len(sources_view(ins@)) < u64::MAX,
    ensures
        final(out)@ == old(out)@ + run_out(initial_view(line_nums, line_ends), sources_view(ins@)),
{
    cat_buffered(&ins, DEFAULT_CAPACITY, out, line_nums, line_ends);
}

/// The configuration of a run: its sources and options.
pub struct ConcatView {
    pub inputs: Seq<InputSource>,
    pub numbers: bool,
    pub ends: bool,
}

/// The sources to concatenate and the options to do it with.
pub struct Concatenator {
    inputs: Vec<InputSource>,
    add_line_numbers: bool,
    add_line_endings: bool,
}

impl View for Concatenator {
    type V = ConcatView;

    closed spec fn view(&self) -> ConcatView {
        ConcatView {
            inputs: self.inputs@,
            numbers: self.add_line_numbers,
            ends: self.add_line_endings,
        }
    }
}

impl Concatenator {
    /// A run over `inputs` with both options off.
    pub fn new(inputs: Vec<InputSource>) -> (r: Concatenator)
        ensures
            r@ == (ConcatView { inputs: inputs@, numbers: false, ends: false }),
    {
        Concatenator { inputs, add_line_numbers: false, add_line_endings: false }
    }

    /// The same run, with lines numbered.
    pub fn with_line_numbers(self) -> (r: Self)
        ensures
            r@ == (ConcatView { numbers: true, ..self@ }),
    {
        let mut r = self;
        r.add_line_numbers = true;
        r
    }

    /// The same run, with line ends marked.
    pub fn with_line_endings(self) -> (r: Self)
        ensures
            r@ == (ConcatView { ends: true, ..self@ }),
    {
        let mut r = self;
        r.add_line_endings = true;
        r
    }

    /// Whether lines are numbered.
    pub fn line_numbers(&self) -> (r: bool)
        ensures
            r == self@.numbers,
    {
        self.add_line_numbers
    }

    /// Whether line ends are marked.
    pub fn line_endings(&self) -> (r: bool)
        ensures
            r == self@.ends,
    {
        self.add_line_endings
    }

    /// A scanner for this run, at its start.
    pub fn scanner(&self) -> (r: Scanner)
        ensures
            r@ == initial_view(self@.numbers, self@.ends),
    {
        Scanner::new(self.add_line_numbers, self.add_line_endings)
    }

    /// The sources, in order.
    pub fn into_inputs(self) -> (r: Vec<InputSource>)
        ensures
            r@ == self@.inputs,
    {
        self.inputs
    }
}

} // verus!
