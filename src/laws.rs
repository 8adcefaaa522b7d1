//! Laws of the engine's output, stated over the model and proved.
use vstd::prelude::*;

use crate::model::{
    annotates, byte_out, decimal, failure_break, failure_line, initial_view, lemma_scan_line_bound,
    lemma_scan_line, lemma_scan_plain, lemma_scan_split, number_prefix, pending_prefix,
    run_out, run_state, scan_out, scan_state, source_state, terminator, ScanView, DOLLAR,
    NEWLINE,
};

verus! {

/// Every source resolved: none failed to open.
pub open spec fn all_resolved(srcs: Seq<Result<Seq<u8>, Seq<char>>>) -> bool {
    forall|i: int| 0 <= i < srcs.len() ==> (#[trigger] srcs[i]) is Ok
}

/// The contents of the resolved sources, concatenated in order.
pub open spec fn joined(srcs: Seq<Result<Seq<u8>, Seq<char>>>) -> Seq<u8>
    decreases srcs.len(),
{
    if srcs.len() == 0 {
        Seq::empty()
    } else {
        joined(srcs.drop_last()) + match srcs.last() {
            Ok(bytes) => bytes,
            Err(_) => Seq::empty(),
        }
    }
}

/// Length of the first line of `bytes`, without its terminator.
pub open spec fn first_line_len(bytes: Seq<u8>) -> nat
    decreases bytes.len(),
{
    if bytes.len() == 0 || bytes[0] == NEWLINE {
        0
    } else {
        1 + first_line_len(bytes.drop_first())
    }
}

/// `bytes` split into lines, each after the annotation of its number, the
/// first numbered `n`; each terminator written with the end marker if `ends`.
pub open spec fn numbered_lines(bytes: Seq<u8>, n: nat, ends: bool) -> Seq<u8>
    decreases bytes.len(),
{
    if bytes.len() == 0 {
        Seq::empty()
    } else {
        let k = first_line_len(bytes);
        if k < bytes.len() {
            number_prefix(n) + bytes.take(k as int) + terminator(ends) + numbered_lines(
                bytes.skip(k + 1 as int),
                n + 1,
                ends,
            )
        } else {
            number_prefix(n) + bytes
        }
    }
}

/// Every terminator in `o` comes right after a `$`, and every `$` right before
/// a terminator.
pub open spec fn ends_marked(o: Seq<u8>) -> bool {
    &&& forall|i: int|
        0 <= i < o.len() && #[trigger] o[i] == NEWLINE ==> i >= 1 && o[i - 1] == DOLLAR
    &&& forall|i: int|
        0 <= i < o.len() && #[trigger] o[i] == DOLLAR ==> i + 1 < o.len() && o[i + 1] == NEWLINE
}

/// No byte of `s` is a `$`.
pub open spec fn free_of_dollar(s: Seq<u8>) -> bool {
    forall|i: int| 0 <= i < s.len() ==> #[trigger] s[i] != DOLLAR
}

proof fn lemma_first_line_len(bytes: Seq<u8>)
    ensures
        first_line_len(bytes) <= bytes.len(),
        forall|i: int| 0 <= i < first_line_len(bytes) ==> bytes[i] != NEWLINE,
        first_line_len(bytes) < bytes.len() ==> bytes[first_line_len(bytes) as int] == NEWLINE,
    decreases bytes.len(),
{
    if bytes.len() > 0 && bytes[0] != NEWLINE {
        let t = bytes.drop_first();
        lemma_first_line_len(t);
        assert forall|i: int| 0 <= i < first_line_len(bytes) implies bytes[i] != NEWLINE by {
            if i > 0 {
                assert(bytes[i] == t[i - 1]);
            }
        }
    }
}

/// With both options off, scanning copies bytes as they are.
proof fn lemma_scan_copies(s: ScanView, bytes: Seq<u8>)
    requires
        !s.numbers,
        !s.ends,
    ensures
        scan_out(s, bytes) == bytes,
    decreases bytes.len(),
{
    if bytes.len() > 0 {
        lemma_scan_copies(s, bytes.drop_last());
        lemma_scan_line_bound(s, bytes.drop_last());
        assert(bytes =~= bytes.drop_last().push(bytes.last()));
        assert(scan_out(s, bytes) =~= bytes);
    }
}

/// Running over sources splits at any point: the second part starts in the
/// state the first ended in.
pub proof fn lemma_run_split(
    s: ScanView,
    a: Seq<Result<Seq<u8>, Seq<char>>>,
    b: Seq<Result<Seq<u8>, Seq<char>>>,
)
    ensures
        run_out(s, a + b) == run_out(s, a) + run_out(run_state(s, a), b),
        run_state(s, a + b) == run_state(run_state(s, a), b),
    decreases b.len(),
{
    if b.len() == 0 {
        assert(a + b =~= a);
        assert(run_out(s, a) + Seq::<u8>::empty() =~= run_out(s, a));
    } else {
        lemma_run_split(s, a, b.drop_last());
        assert((a + b).drop_last() =~= a + b.drop_last());
        assert((a + b).last() == b.last());
        assert(run_out(s, a + b) =~= run_out(s, a) + run_out(run_state(s, a), b));
    }
}

/// Resolved sources behave as one stream: the output is that of their
/// contents scanned as a whole, so a line may run on from one source into the
/// next, and its number is counted over all sources.
pub proof fn law_sources_form_one_stream(s: ScanView, srcs: Seq<Result<Seq<u8>, Seq<char>>>)
    requires
        all_resolved(srcs),
    ensures
        run_out(s, srcs) == scan_out(s, joined(srcs)),
        run_state(s, srcs) == scan_state(s, joined(srcs)),
    decreases srcs.len(),
{
    if srcs.len() > 0 {
        let init = srcs.drop_last();
        assert(all_resolved(init)) by {
            assert forall|i: int| 0 <= i < init.len() implies (#[trigger] init[i]) is Ok by {
                assert(init[i] == srcs[i]);
            }
        }
        law_sources_form_one_stream(s, init);
        assert(srcs[srcs.len() - 1] is Ok);
        let last = srcs.last()->Ok_0;
        lemma_scan_split(s, joined(init), last);
    }
}

/// With both options off, the output is the sources' contents, concatenated
/// in order.
pub proof fn law_identity(srcs: Seq<Result<Seq<u8>, Seq<char>>>)
    requires
        all_resolved(srcs),
    ensures
        run_out(initial_view(false, false), srcs) == joined(srcs),
{
    law_sources_form_one_stream(initial_view(false, false), srcs);
    lemma_scan_copies(initial_view(false, false), joined(srcs));
}

proof fn lemma_scan_numbered(n: nat, ends: bool, bytes: Seq<u8>)
    ensures
        scan_out(ScanView { at_line_start: true, line: n, numbers: true, ends }, bytes)
            == numbered_lines(bytes, n, ends),
    decreases bytes.len(),
{
    let s = ScanView { at_line_start: true, line: n, numbers: true, ends };
    if bytes.len() > 0 {
        lemma_first_line_len(bytes);
        let k = first_line_len(bytes);
        if k < bytes.len() {
            let line = bytes.take(k as int);
            let rest = bytes.skip(k + 1 as int);
            assert(bytes =~= line.push(NEWLINE) + rest);
            lemma_scan_line(s, line);
            lemma_scan_split(s, line.push(NEWLINE), rest);
            lemma_scan_numbered(n + 1, ends, rest);
        } else {
            lemma_scan_plain(s, bytes);
        }
    }
}

/// With lines numbered and every source resolved, the n-th line of the
/// sources' combined contents is written after the annotation of the number n,
/// counting from 1 across all sources.
pub proof fn law_lines_numbered_across_sources(
    ends: bool,
    srcs: Seq<Result<Seq<u8>, Seq<char>>>,
)
    requires
        all_resolved(srcs),
    ensures
        run_out(initial_view(true, ends), srcs) == numbered_lines(joined(srcs), 1, ends),
{
    law_sources_form_one_stream(initial_view(true, ends), srcs);
    lemma_scan_numbered(1, ends, joined(srcs));
}

proof fn lemma_decimal_digits(n: nat)
    ensures
        forall|i: int| 0 <= i < decimal(n).len() ==> 48 <= #[trigger] decimal(n)[i] <= 57,
    decreases n,
{
    let d = decimal(n);
    if n >= 10 {
        lemma_decimal_digits(n / 10);
        let last = (n % 10 + 48) as u8;
        assert(48 <= last <= 57);
        assert forall|i: int| 0 <= i < d.len() implies 48 <= #[trigger] d[i] <= 57 by {
            if i < d.len() - 1 {
                assert(d[i] == decimal(n / 10)[i]);
            }
        }
    } else {
        assert(d[0] == (n + 48) as u8);
    }
}

proof fn lemma_ends_marked_concat(a: Seq<u8>, b: Seq<u8>)
    requires
        ends_marked(a),
        ends_marked(b),
    ensures
        ends_marked(a + b),
{
    let o = a + b;
    assert forall|i: int| 0 <= i < o.len() && #[trigger] o[i] == NEWLINE implies i >= 1 && o[i
        - 1] == DOLLAR by {
        if i < a.len() {
            assert(a[i] == NEWLINE);
        } else {
            assert(b[i - a.len()] == NEWLINE);
        }
    }
    assert forall|i: int| 0 <= i < o.len() && #[trigger] o[i] == DOLLAR implies i + 1 < o.len()
        && o[i + 1] == NEWLINE by {
        if i < a.len() {
            assert(a[i] == DOLLAR);
        } else {
            assert(b[i - a.len()] == DOLLAR);
        }
    }
}

proof fn lemma_byte_out_marked(s: ScanView, b: u8)
    requires
        s.ends,
        b != DOLLAR,
    ensures
        ends_marked(byte_out(s, b)),
{
    let p = pending_prefix(s);
    lemma_decimal_digits(s.line);
    assert(forall|i: int| 0 <= i < p.len() ==> p[i] != NEWLINE && p[i] != DOLLAR) by {
        if annotates(s) {
            let d = decimal(s.line);
            assert forall|i: int| 0 <= i < p.len() implies p[i] != NEWLINE && p[i] != DOLLAR by {
                if 5 <= i < 5 + d.len() {
                    assert(p[i] == d[i - 5]);
                }
            }
        }
    }
    let tail = if b == NEWLINE {
        seq![DOLLAR, NEWLINE]
    } else {
        seq![b]
    };
    assert(ends_marked(p));
    assert(ends_marked(tail));
    lemma_ends_marked_concat(p, tail);
}

proof fn lemma_scan_marked(s: ScanView, bytes: Seq<u8>)
    requires
        s.ends,
        free_of_dollar(bytes),
    ensures
        ends_marked(scan_out(s, bytes)),
    decreases bytes.len(),
{
    if bytes.len() > 0 {
        let init = bytes.drop_last();
        assert(free_of_dollar(init)) by {
            assert forall|i: int| 0 <= i < init.len() implies #[trigger] init[i] != DOLLAR by {
                assert(init[i] == bytes[i]);
            }
        }
        assert(bytes[bytes.len() - 1] != DOLLAR);
        lemma_scan_marked(s, init);
        lemma_scan_line_bound(s, init);
        lemma_byte_out_marked(scan_state(s, init), bytes.last());
        lemma_ends_marked_concat(scan_out(s, init), byte_out(scan_state(s, init), bytes.last()));
    } else {
        assert(ends_marked(Seq::<u8>::empty()));
    }
}

proof fn lemma_joined_free_of_dollar(srcs: Seq<Result<Seq<u8>, Seq<char>>>)
    requires
        forall|i: int| 0 <= i < srcs.len() ==> (#[trigger] srcs[i] matches Ok(bytes) ==> free_of_dollar(bytes)),
    ensures
        free_of_dollar(joined(srcs)),
    decreases srcs.len(),
{
    if srcs.len() > 0 {
        let init = srcs.drop_last();
        assert forall|i: int| 0 <= i < init.len() implies (#[trigger] init[i] matches Ok(bytes)
            ==> free_of_dollar(bytes)) by {
            assert(init[i] == srcs[i]);
        }
        lemma_joined_free_of_dollar(init);
        assert(srcs[srcs.len() - 1] == srcs.last());
    }
}

/// With line ends marked, every source resolved and no `$` in any source, each
/// terminator in the output comes right after exactly one `$`, and every `$`
/// in the output comes right before a terminator.
pub proof fn law_line_ends_marked(numbers: bool, srcs: Seq<Result<Seq<u8>, Seq<char>>>)
    requires
        all_resolved(srcs),
        forall|i: int| 0 <= i < srcs.len() ==> (#[trigger] srcs[i] matches Ok(bytes) ==> free_of_dollar(bytes)),
    ensures
        ({
            let o = run_out(initial_view(numbers, true), srcs);
            &&& forall|i: int|
                0 <= i < o.len() && #[trigger] o[i] == NEWLINE ==> i >= 1 && o[i - 1] == DOLLAR
                    && (i >= 2 ==> o[i - 2] != DOLLAR)
            &&& forall|i: int|
                0 <= i < o.len() && #[trigger] o[i] == DOLLAR ==> i + 1 < o.len() && o[i + 1]
                    == NEWLINE
        }),
{
    let s = initial_view(numbers, true);
    law_sources_form_one_stream(s, srcs);
    lemma_joined_free_of_dollar(srcs);
    lemma_scan_marked(s, joined(srcs));
    let o = run_out(s, srcs);
    assert forall|i: int| 0 <= i < o.len() && #[trigger] o[i] == NEWLINE implies i >= 1 && o[i
        - 1] == DOLLAR && (i >= 2 ==> o[i - 2] != DOLLAR) by {
        if i >= 2 && o[i - 2] == DOLLAR {
            assert(o[i - 1] == NEWLINE);
        }
    }
}

/// A source that could not be opened writes exactly its `cat: {message}` line,
/// after all the output of the sources before it (ended by a line break if it
/// stands mid-line) and before any of the sources after it; the line counter
/// is not advanced, and the next source starts a new line.
pub proof fn law_failure_in_place(
    s: ScanView,
    before: Seq<Result<Seq<u8>, Seq<char>>>,
    message: Seq<char>,
    after: Seq<Result<Seq<u8>, Seq<char>>>,
)
    ensures
        run_out(s, before.push(Err(message)) + after) == run_out(s, before) + failure_break(
            run_state(s, before),
        ) + failure_line(message)
            + run_out(ScanView { at_line_start: true, ..run_state(s, before) }, after),
        run_state(s, before.push(Err(message))).line == run_state(s, before).line,
{
    let failed = before.push(Err(message));
    assert(failed.drop_last() =~= before);
    lemma_run_split(s, failed, after);
    assert(run_state(s, failed) == source_state(run_state(s, before), Err(message)));
}

/// A source that ends mid-line runs on into the next resolved source: no
/// annotation is due at the boundary, and the output is that of their
/// contents as one.
pub proof fn law_unterminated_source_merges(s: ScanView, a: Seq<u8>, b: Seq<u8>)
    requires
        a.len() > 0,
        a.last() != NEWLINE,
    ensures
        !annotates(run_state(s, seq![Ok(a)])),
        run_out(s, seq![Ok(a), Ok(b)]) == scan_out(s, a + b),
{
    let srcs: Seq<Result<Seq<u8>, Seq<char>>> = seq![Ok(a), Ok(b)];
    assert(all_resolved(srcs));
    law_sources_form_one_stream(s, srcs);
    let first: Seq<Result<Seq<u8>, Seq<char>>> = seq![Ok(a)];
    assert(first.drop_last() =~= Seq::<Result<Seq<u8>, Seq<char>>>::empty());
    assert(srcs.drop_last() =~= first);
    assert(first.last() == Ok::<Seq<u8>, Seq<char>>(a));
    assert(joined(first.drop_last()) == Seq::<u8>::empty());
    assert(joined(first) =~= a);
    assert(joined(srcs) =~= a + b);
    assert(a =~= a.drop_last().push(a.last()));
}

/// Number of terminators in `o`.
pub open spec fn count_newlines(o: Seq<u8>) -> nat
    decreases o.len(),
{
    if o.len() == 0 {
        0
    } else {
        count_newlines(o.drop_last()) + if o.last() == NEWLINE {
            1nat
        } else {
            0nat
        }
    }
}

/// `bytes` with each terminator written as `$` and the terminator.
pub open spec fn mark_ends(bytes: Seq<u8>) -> Seq<u8>
    decreases bytes.len(),
{
    if bytes.len() == 0 {
        Seq::empty()
    } else {
        mark_ends(bytes.drop_last()) + if bytes.last() == NEWLINE {
            seq![DOLLAR, NEWLINE]
        } else {
            seq![bytes.last()]
        }
    }
}

proof fn lemma_count_newlines_concat(a: Seq<u8>, b: Seq<u8>)
    ensures
        count_newlines(a + b) == count_newlines(a) + count_newlines(b),
    decreases b.len(),
{
    if b.len() == 0 {
        assert(a + b =~= a);
    } else {
        lemma_count_newlines_concat(a, b.drop_last());
        assert((a + b).drop_last() =~= a + b.drop_last());
    }
}

proof fn lemma_count_newlines_none(o: Seq<u8>)
    requires
        forall|i: int| 0 <= i < o.len() ==> o[i] != NEWLINE,
    ensures
        count_newlines(o) == 0,
    decreases o.len(),
{
    if o.len() > 0 {
        lemma_count_newlines_none(o.drop_last());
    }
}

proof fn lemma_prefix_no_newline(s: ScanView)
    ensures
        forall|i: int| 0 <= i < pending_prefix(s).len() ==> pending_prefix(s)[i] != NEWLINE,
{
    let p = pending_prefix(s);
    if annotates(s) {
        let d = decimal(s.line);
        lemma_decimal_digits(s.line);
        assert forall|i: int| 0 <= i < p.len() implies p[i] != NEWLINE by {
            if 5 <= i < 5 + d.len() {
                assert(p[i] == d[i - 5]);
            }
        }
    }
}

proof fn lemma_scan_counts_newlines(s: ScanView, bytes: Seq<u8>)
    ensures
        count_newlines(scan_out(s, bytes)) == count_newlines(bytes),
    decreases bytes.len(),
{
    if bytes.len() > 0 {
        let init = bytes.drop_last();
        let st = scan_state(s, init);
        let b = bytes.last();
        lemma_scan_counts_newlines(s, init);
        lemma_prefix_no_newline(st);
        lemma_count_newlines_none(pending_prefix(st));
        let tail = if b == NEWLINE {
            terminator(st.ends)
        } else {
            seq![b]
        };
        assert(count_newlines(tail) == if b == NEWLINE {
            1nat
        } else {
            0nat
        }) by {
            let empty = Seq::<u8>::empty();
            assert(count_newlines(empty) == 0);
            if b == NEWLINE && st.ends {
                assert(tail.drop_last() =~= seq![DOLLAR]);
                assert(seq![DOLLAR].drop_last() =~= empty);
                assert(count_newlines(seq![DOLLAR]) == 0);
            } else {
                assert(tail.drop_last() =~= empty);
            }
        }
        lemma_count_newlines_concat(pending_prefix(st), tail);
        lemma_count_newlines_concat(scan_out(s, init), byte_out(st, b));
    }
}

/// With every source resolved, the output holds as many terminators as the
/// sources together, whatever the options.
pub proof fn law_terminators_kept(s: ScanView, srcs: Seq<Result<Seq<u8>, Seq<char>>>)
    requires
        all_resolved(srcs),
    ensures
        count_newlines(run_out(s, srcs)) == count_newlines(joined(srcs)),
{
    law_sources_form_one_stream(s, srcs);
    lemma_scan_counts_newlines(s, joined(srcs));
}

/// An empty source writes nothing and changes nothing for the sources after it.
pub proof fn law_empty_source_is_invisible(
    s: ScanView,
    before: Seq<Result<Seq<u8>, Seq<char>>>,
    after: Seq<Result<Seq<u8>, Seq<char>>>,
)
    ensures
        run_out(s, before.push(Ok(Seq::empty())) + after) == run_out(s, before + after),
        run_state(s, before.push(Ok(Seq::empty())) + after) == run_state(s, before + after),
{
    let with_empty = before.push(Ok(Seq::<u8>::empty()));
    assert(with_empty.drop_last() =~= before);
    assert(run_out(s, with_empty) =~= run_out(s, before));
    lemma_run_split(s, with_empty, after);
    lemma_run_split(s, before, after);
}

/// When the sources' combined contents end mid-line, the output ends with
/// their last byte: that line gets no end marker and no terminator.
pub proof fn law_unterminated_last_line_unmarked(
    s: ScanView,
    srcs: Seq<Result<Seq<u8>, Seq<char>>>,
)
    requires
        all_resolved(srcs),
        joined(srcs).len() > 0,
        joined(srcs).last() != NEWLINE,
    ensures
        run_out(s, srcs).len() > 0,
        run_out(s, srcs).last() == joined(srcs).last(),
{
    law_sources_form_one_stream(s, srcs);
    let bytes = joined(srcs);
    let init = bytes.drop_last();
    let o = scan_out(s, bytes);
    assert(o == scan_out(s, init) + byte_out(scan_state(s, init), bytes.last()));
    assert(o.last() == bytes.last());
}

proof fn lemma_scan_marks_ends(s: ScanView, bytes: Seq<u8>)
    requires
        !s.numbers,
        s.ends,
    ensures
        scan_out(s, bytes) == mark_ends(bytes),
    decreases bytes.len(),
{
    if bytes.len() > 0 {
        lemma_scan_marks_ends(s, bytes.drop_last());
        lemma_scan_line_bound(s, bytes.drop_last());
        assert(scan_out(s, bytes) =~= mark_ends(bytes));
    }
}

/// With only line ends marked and every source resolved, the output is the
/// sources' contents with each terminator written as `$` and the terminator,
/// every other byte unchanged.
pub proof fn law_only_ends_marked(srcs: Seq<Result<Seq<u8>, Seq<char>>>)
    requires
        all_resolved(srcs),
    ensures
        run_out(initial_view(false, true), srcs) == mark_ends(joined(srcs)),
{
    law_sources_form_one_stream(initial_view(false, true), srcs);
    lemma_scan_marks_ends(initial_view(false, true), joined(srcs));
}

} // verus!
