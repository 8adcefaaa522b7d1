//! Mathematical model of the output: what each byte, source and run produces.
use vstd::prelude::*;
use vstd::utf8::encode_utf8;

verus! {

/// The line terminator.
pub const NEWLINE: u8 = 10;

/// The visible end-of-line marker.
pub const DOLLAR: u8 = 36;

/// Decimal digits of `n`, most significant first, with no leading zeros.
pub open spec fn decimal(n: nat) -> Seq<u8>
    decreases n,
{
    if n < 10 {
        seq![(n + 48) as u8]
    } else {
        decimal(n / 10).push((n % 10 + 48) as u8)
    }
}

/// The annotation written before line `n`: five spaces, the number, a tab.
pub open spec fn number_prefix(n: nat) -> Seq<u8> {
    seq![32u8, 32u8, 32u8, 32u8, 32u8] + decimal(n) + seq![9u8]
}

/// What is written for a terminator: `$\n` when ends are marked, else `\n`.
pub open spec fn terminator(ends: bool) -> Seq<u8> {
    if ends {
        seq![DOLLAR, NEWLINE]
    } else {
        seq![NEWLINE]
    }
}

/// The line written for a source that could not be opened.
pub open spec fn failure_line(message: Seq<char>) -> Seq<u8> {
    seq![99u8, 97u8, 116u8, 58u8, 32u8] + encode_utf8(message) + seq![NEWLINE]
}

/// State of a run: line position, the next line number, and the two options.
pub struct ScanView {
    pub at_line_start: bool,
    pub line: nat,
    pub numbers: bool,
    pub ends: bool,
}

/// The state a run starts in.
pub open spec fn initial_view(numbers: bool, ends: bool) -> ScanView {
    ScanView { at_line_start: true, line: 1, numbers, ends }
}

/// Whether the next byte gets a line-number annotation.
pub open spec fn annotates(s: ScanView) -> bool {
    s.at_line_start && s.numbers
}

/// The annotation (if any) due before the next byte.
pub open spec fn pending_prefix(s: ScanView) -> Seq<u8> {
    if annotates(s) {
        number_prefix(s.line)
    } else {
        Seq::empty()
    }
}

/// The line number after the next byte's annotation (if any).
pub open spec fn line_after_prefix(s: ScanView) -> nat {
    if annotates(s) {
        s.line + 1
    } else {
        s.line
    }
}

/// Output for one input byte in state `s`.
pub open spec fn byte_out(s: ScanView, b: u8) -> Seq<u8> {
    pending_prefix(s) + if b == NEWLINE {
        terminator(s.ends)
    } else {
        seq![b]
    }
}

/// State after one input byte.
pub open spec fn byte_step(s: ScanView, b: u8) -> ScanView {
    ScanView { at_line_start: b == NEWLINE, line: line_after_prefix(s), ..s }
}

/// Output for a run of bytes of one or more sources, starting in state `s`.
pub open spec fn scan_out(s: ScanView, bytes: Seq<u8>) -> Seq<u8>
    decreases bytes.len(),
{
    if bytes.len() == 0 {
        Seq::empty()
    } else {
        scan_out(s, bytes.drop_last()) + byte_out(scan_state(s, bytes.drop_last()), bytes.last())
    }
}

/// State after a run of bytes, starting in state `s`.
pub open spec fn scan_state(s: ScanView, bytes: Seq<u8>) -> ScanView
    decreases bytes.len(),
{
    if bytes.len() == 0 {
        s
    } else {
        byte_step(scan_state(s, bytes.drop_last()), bytes.last())
    }
}

/// The break written before a failure's line when the output stands mid-line:
/// a bare terminator, with no end marker, as it ends no line of any source.
pub open spec fn failure_break(s: ScanView) -> Seq<u8> {
    if s.at_line_start {
        Seq::empty()
    } else {
        seq![NEWLINE]
    }
}

/// Output for one resolved source: its contents, or the failure's message on
/// a line of its own.
pub open spec fn source_out(s: ScanView, src: Result<Seq<u8>, Seq<char>>) -> Seq<u8> {
    match src {
        Ok(bytes) => scan_out(s, bytes),
        Err(message) => failure_break(s) + failure_line(message),
    }
}

/// State after one resolved source. After a failure's line the next byte
/// starts a new line; a failure uses no line number.
pub open spec fn source_state(s: ScanView, src: Result<Seq<u8>, Seq<char>>) -> ScanView {
    match src {
        Ok(bytes) => scan_state(s, bytes),
        Err(_) => ScanView { at_line_start: true, ..s },
    }
}

/// Output for a sequence of resolved sources.
pub open spec fn run_out(s: ScanView, srcs: Seq<Result<Seq<u8>, Seq<char>>>) -> Seq<u8>
    decreases srcs.len(),
{
    if srcs.len() == 0 {
        Seq::empty()
    } else {
        run_out(s, srcs.drop_last()) + source_out(run_state(s, srcs.drop_last()), srcs.last())
    }
}

/// State after a sequence of resolved sources.
pub open spec fn run_state(s: ScanView, srcs: Seq<Result<Seq<u8>, Seq<char>>>) -> ScanView
    decreases srcs.len(),
{
    if srcs.len() == 0 {
        s
    } else {
        source_state(run_state(s, srcs.drop_last()), srcs.last())
    }
}

/// Number of content bytes over all sources that resolved.
pub open spec fn total_len(srcs: Seq<Result<Seq<u8>, Seq<char>>>) -> nat
    decreases srcs.len(),
{
    if srcs.len() == 0 {
        0
    } else {
        total_len(srcs.drop_last()) + match srcs.last() {
            Ok(bytes) => bytes.len(),
            Err(_) => 0,
        }
    }
}

/// `k` bytes make up the first chunk step of `c`: up to and including the
/// first terminator, or all of `c` when it holds none.
pub open spec fn is_line_span(c: Seq<u8>, k: int) -> bool {
    &&& 0 <= k <= c.len()
    &&& (c.len() > 0 ==> k > 0)
    &&& forall|i: int| 0 <= i < k - 1 ==> c[i] != NEWLINE
    &&& (k == c.len() || c[k - 1] == NEWLINE)
}

/// Scanning splits at any point: the second part starts where the first ended.
pub proof fn lemma_scan_split(s: ScanView, a: Seq<u8>, b: Seq<u8>)
    ensures
        scan_out(s, a + b) == scan_out(s, a) + scan_out(scan_state(s, a), b),
        scan_state(s, a + b) == scan_state(scan_state(s, a), b),
    decreases b.len(),
{
    if b.len() == 0 {
        assert(a + b =~= a);
        assert(scan_out(s, a) + Seq::<u8>::empty() =~= scan_out(s, a));
    } else {
        lemma_scan_split(s, a, b.drop_last());
        assert((a + b).drop_last() =~= a + b.drop_last());
        assert((a + b).last() == b.last());
        assert(scan_out(s, a + b) =~= scan_out(s, a) + scan_out(scan_state(s, a), b));
    }
}

/// A run of non-terminator bytes is copied as it is, after the annotation due.
pub proof fn lemma_scan_plain(s: ScanView, bytes: Seq<u8>)
    requires
        bytes.len() > 0,
        forall|i: int| 0 <= i < bytes.len() ==> bytes[i] != NEWLINE,
    ensures
        scan_out(s, bytes) == pending_prefix(s) + bytes,
        scan_state(s, bytes) == (ScanView { at_line_start: false, line: line_after_prefix(s), ..s }),
    decreases bytes.len(),
{
    let init = bytes.drop_last();
    if init.len() == 0 {
        assert(scan_out(s, init) == Seq::<u8>::empty());
        assert(bytes =~= seq![bytes.last()]);
        assert(scan_out(s, bytes) =~= pending_prefix(s) + bytes);
    } else {
        lemma_scan_plain(s, init);
        assert(bytes =~= init.push(bytes.last()));
        assert(scan_out(s, bytes) =~= pending_prefix(s) + bytes);
    }
}

/// A line and its terminator: the annotation due, the line, the terminator.
pub proof fn lemma_scan_line(s: ScanView, line: Seq<u8>)
    requires
        forall|i: int| 0 <= i < line.len() ==> line[i] != NEWLINE,
    ensures
        scan_out(s, line.push(NEWLINE)) == pending_prefix(s) + line + terminator(s.ends),
        scan_state(s, line.push(NEWLINE)) == (ScanView {
            at_line_start: true,
            line: line_after_prefix(s),
            ..s
        }),
{
    assert(line.push(NEWLINE).drop_last() =~= line);
    if line.len() == 0 {
        assert(scan_out(s, line) == Seq::<u8>::empty());
        assert(scan_out(s, line.push(NEWLINE)) =~= pending_prefix(s) + line + terminator(s.ends));
    } else {
        lemma_scan_plain(s, line);
        assert(scan_out(s, line.push(NEWLINE)) =~= pending_prefix(s) + line + terminator(s.ends));
    }
}

/// A line is numbered at most once: the line number grows by at most one per byte.
pub proof fn lemma_scan_line_bound(s: ScanView, bytes: Seq<u8>)
    ensures
        s.line <= scan_state(s, bytes).line <= s.line + bytes.len(),
        scan_state(s, bytes).numbers == s.numbers,
        scan_state(s, bytes).ends == s.ends,
    decreases bytes.len(),
{
    if bytes.len() > 0 {
        lemma_scan_line_bound(s, bytes.drop_last());
    }
}

/// The content bytes of the first sources are part of those of all sources.
pub proof fn lemma_total_len_prefix(srcs: Seq<Result<Seq<u8>, Seq<char>>>, i: int)
    requires
        0 <= i <= srcs.len(),
    ensures
        total_len(srcs.take(i)) <= total_len(srcs),
    decreases srcs.len(),
{
    if i == srcs.len() {
        assert(srcs.take(i) =~= srcs);
    } else {
        assert(srcs.drop_last().take(i) =~= srcs.take(i));
        lemma_total_len_prefix(srcs.drop_last(), i);
    }
}

} // verus!
