//! The scanner's laws: what a whole scan emits for well-formed and for
//! ill-formed inputs, stated and proved over the scan model.

use vstd::prelude::*;
use crate::text::trimmed;
use crate::scan::{
    is_open_line, is_close_line, region_name, script_name, open_marker, close_marker, hash_column,
    ScanState, ScanResult, init_state, step_state, line_output, line_mismatch, scan_from, scan,
    deindent_all,
};

verus! {

/// No line is both an open marker and a close marker: the two prefixes
/// differ in their second byte.
pub proof fn lemma_markers_disjoint(line: Seq<u8>)
    ensures
        !(is_open_line(line) && is_close_line(line)),
{
    if is_open_line(line) && is_close_line(line) {
        let t = trimmed(line);
        assert(t.subrange(0, 7) == open_marker());
        assert(t.subrange(0, 10) == close_marker());
        assert(t.subrange(0, 7)[1] == t[1]);
        assert(t.subrange(0, 10)[1] == t[1]);
        assert(false);
    }
}

/// Scanning a concatenation scans the first part, then the second from the
/// state the first part left behind; output and diagnostics concatenate.
pub proof fn lemma_scan_from_concat(st: ScanState, xs: Seq<Seq<u8>>, ys: Seq<Seq<u8>>)
    ensures
        scan_from(st, xs + ys).state == scan_from(scan_from(st, xs).state, ys).state,
        scan_from(st, xs + ys).output == scan_from(st, xs).output + scan_from(
            scan_from(st, xs).state,
            ys,
        ).output,
        scan_from(st, xs + ys).mismatches == scan_from(st, xs).mismatches + scan_from(
            scan_from(st, xs).state,
            ys,
        ).mismatches,
    decreases xs.len(),
{
    if xs.len() == 0 {
        assert(xs + ys =~= ys);
        assert(scan_from(st, xs).output + scan_from(st, ys).output =~= scan_from(st, ys).output);
    } else {
        let st1 = step_state(st, xs[0]);
        lemma_scan_from_concat(st1, xs.drop_first(), ys);
        assert((xs + ys)[0] == xs[0]);
        assert((xs + ys).drop_first() =~= xs.drop_first() + ys);
        assert(scan_from(st, xs + ys).output =~= scan_from(st, xs).output + scan_from(
            scan_from(st, xs).state,
            ys,
        ).output);
    }
}

/// A scan of a single line takes one step.
pub proof fn lemma_scan_single(st: ScanState, line: Seq<u8>)
    ensures
        scan_from(st, seq![line]).state == step_state(st, line),
        scan_from(st, seq![line]).output == line_output(st, line),
        scan_from(st, seq![line]).mismatches == line_mismatch(st, line),
{
    let st1 = step_state(st, line);
    assert(seq![line].drop_first() =~= Seq::<Seq<u8>>::empty());
    assert(seq![line][0] == line);
    assert(scan_from(st1, Seq::<Seq<u8>>::empty()).state == st1);
    assert(scan_from(st1, Seq::<Seq<u8>>::empty()).output == Seq::<u8>::empty());
    assert(scan_from(st1, Seq::<Seq<u8>>::empty()).mismatches == 0);
    assert(line_output(st, line) + Seq::<u8>::empty() =~= line_output(st, line));
}

/// Lines scanned outside the captured region, none of them a marker, leave
/// the state as it was and emit nothing.
pub proof fn lemma_quiet(st: ScanState, lines: Seq<Seq<u8>>)
    requires
        !st.in_content,
        forall|i: int|
            0 <= i < lines.len() ==> !is_open_line(lines[i]) && !is_close_line(lines[i]),
    ensures
        scan_from(st, lines).state == st,
        scan_from(st, lines).output == Seq::<u8>::empty(),
        scan_from(st, lines).mismatches == 0,
    decreases lines.len(),
{
    if lines.len() > 0 {
        assert(!is_open_line(lines[0]) && !is_close_line(lines[0]));
        assert forall|i: int|
            0 <= i < lines.drop_first().len() implies !is_open_line(lines.drop_first()[i])
            && !is_close_line(lines.drop_first()[i]) by {
            assert(lines.drop_first()[i] == lines[i + 1]);
        }
        lemma_quiet(st, lines.drop_first());
        assert(Seq::<u8>::empty() + Seq::<u8>::empty() =~= Seq::<u8>::empty());
    }
}

/// Lines scanned inside the captured region, none of them a marker, leave
/// the state as it was and are each emitted de-indented by the recorded
/// indentation, newline-terminated, in order.
pub proof fn lemma_body(st: ScanState, lines: Seq<Seq<u8>>)
    requires
        st.in_content,
        forall|i: int|
            0 <= i < lines.len() ==> !is_open_line(lines[i]) && !is_close_line(lines[i]),
    ensures
        scan_from(st, lines).state == st,
        scan_from(st, lines).output == deindent_all(lines, st.indent),
        scan_from(st, lines).mismatches == 0,
    decreases lines.len(),
{
    if lines.len() > 0 {
        assert(!is_open_line(lines[0]) && !is_close_line(lines[0]));
        assert forall|i: int|
            0 <= i < lines.drop_first().len() implies !is_open_line(lines.drop_first()[i])
            && !is_close_line(lines.drop_first()[i]) by {
            assert(lines.drop_first()[i] == lines[i + 1]);
        }
        lemma_body(st, lines.drop_first());
    }
}

/// As long as no line opens a region named `Script`, the scanner stays
/// outside the captured region and emits nothing, whatever other regions
/// open and close around it.
pub proof fn lemma_out_of_content(st: ScanState, lines: Seq<Seq<u8>>)
    requires
        !st.in_content,
        forall|i: int|
            0 <= i < lines.len() ==> !(is_open_line(lines[i]) && region_name(lines[i])
                == script_name()),
    ensures
        !scan_from(st, lines).state.in_content,
        scan_from(st, lines).output == Seq::<u8>::empty(),
    decreases lines.len(),
{
    if lines.len() > 0 {
        assert(!(is_open_line(lines[0]) && region_name(lines[0]) == script_name()));
        let st1 = step_state(st, lines[0]);
        assert(!st1.in_content);
        assert forall|i: int|
            0 <= i < lines.drop_first().len() implies !(is_open_line(lines.drop_first()[i])
            && region_name(lines.drop_first()[i]) == script_name()) by {
            assert(lines.drop_first()[i] == lines[i + 1]);
        }
        lemma_out_of_content(st1, lines.drop_first());
        assert(line_output(st, lines[0]) =~= Seq::<u8>::empty());
        assert(Seq::<u8>::empty() + Seq::<u8>::empty() =~= Seq::<u8>::empty());
    }
}

/// Lines that never open a region named `Script` contribute nothing to the
/// output: a whole scan of such a source emits nothing.
pub proof fn lemma_no_script_no_output(lines: Seq<Seq<u8>>)
    requires
        forall|i: int|
            0 <= i < lines.len() ==> !(is_open_line(lines[i]) && region_name(lines[i])
                == script_name()),
    ensures
        scan(lines).output == Seq::<u8>::empty(),
{
    lemma_out_of_content(init_state(), lines);
}

/// A `Script` region is fully captured wherever it stands: whatever opens,
/// closes or plain text surrounds it — so long as nothing else opens a
/// region named `Script` — the scan emits exactly its body, each line
/// de-indented by the column at which the region opened. In particular a
/// `Script` region nested in other regions is ended by its own matching
/// close marker, not by the enclosing regions'.
pub proof fn lemma_script_capture(
    prefix: Seq<Seq<u8>>,
    open_line: Seq<u8>,
    body: Seq<Seq<u8>>,
    close_line: Seq<u8>,
    rest: Seq<Seq<u8>>,
)
    requires
        forall|i: int|
            0 <= i < prefix.len() ==> !(is_open_line(prefix[i]) && region_name(prefix[i])
                == script_name()),
        is_open_line(open_line),
        region_name(open_line) == script_name(),
        forall|i: int| 0 <= i < body.len() ==> !is_open_line(body[i]) && !is_close_line(body[i]),
        is_close_line(close_line),
        forall|i: int|
            0 <= i < rest.len() ==> !(is_open_line(rest[i]) && region_name(rest[i])
                == script_name()),
    ensures
        scan(prefix + seq![open_line] + body + seq![close_line] + rest).output == deindent_all(
            body,
            hash_column(open_line),
        ),
{
    let o = seq![open_line];
    let c = seq![close_line];
    let ab = prefix + o;
    let abb = ab + body;
    let abbc = abb + c;
    lemma_out_of_content(init_state(), prefix);
    let st0 = scan_from(init_state(), prefix).state;
    lemma_scan_from_concat(init_state(), prefix, o);
    lemma_scan_single(st0, open_line);
    let st1 = step_state(st0, open_line);
    assert(st1.in_content && st1.indent == hash_column(open_line));
    assert(st1.stack.last() == script_name() && st1.stack.len() > 0);
    lemma_scan_from_concat(init_state(), ab, body);
    lemma_body(st1, body);
    lemma_scan_from_concat(init_state(), abb, c);
    lemma_markers_disjoint(close_line);
    lemma_scan_single(st1, close_line);
    let st2 = step_state(st1, close_line);
    assert(!st2.in_content);
    lemma_scan_from_concat(init_state(), abbc, rest);
    lemma_out_of_content(st2, rest);
    assert(scan(abbc + rest).output =~= deindent_all(body, hash_column(open_line)));
}

/// A source whose only markers are one `#region Script` line and one
/// matching `#endregion` line scans to exactly the body between them, each
/// line de-indented by the opening column and newline-terminated — nothing
/// else is emitted, and no mismatch is reported.
pub proof fn lemma_single_script_region(
    before: Seq<Seq<u8>>,
    open_line: Seq<u8>,
    body: Seq<Seq<u8>>,
    close_line: Seq<u8>,
    after: Seq<Seq<u8>>,
)
    requires
        forall|i: int|
            0 <= i < before.len() ==> !is_open_line(before[i]) && !is_close_line(before[i]),
        is_open_line(open_line),
        region_name(open_line) == script_name(),
        forall|i: int| 0 <= i < body.len() ==> !is_open_line(body[i]) && !is_close_line(body[i]),
        is_close_line(close_line),
        forall|i: int|
            0 <= i < after.len() ==> !is_open_line(after[i]) && !is_close_line(after[i]),
    ensures
        scan(before + seq![open_line] + body + seq![close_line] + after).output == deindent_all(
            body,
            hash_column(open_line),
        ),
        scan(before + seq![open_line] + body + seq![close_line] + after).mismatches == 0,
{
    let o = seq![open_line];
    let c = seq![close_line];
    let ab = before + o;
    let abb = ab + body;
    let abbc = abb + c;
    lemma_markers_disjoint(open_line);
    assert forall|i: int|
        0 <= i < before.len() implies !(is_open_line(before[i]) && region_name(before[i])
        == script_name()) by {}
    assert forall|i: int|
        0 <= i < after.len() implies !(is_open_line(after[i]) && region_name(after[i])
        == script_name()) by {}
    lemma_script_capture(before, open_line, body, close_line, after);
    lemma_quiet(init_state(), before);
    lemma_scan_from_concat(init_state(), before, o);
    lemma_scan_single(init_state(), open_line);
    let st1 = step_state(init_state(), open_line);
    lemma_scan_from_concat(init_state(), ab, body);
    lemma_body(st1, body);
    lemma_scan_from_concat(init_state(), abb, c);
    lemma_markers_disjoint(close_line);
    lemma_scan_single(st1, close_line);
    let st2 = step_state(st1, close_line);
    assert(!st2.in_content);
    lemma_scan_from_concat(init_state(), abbc, after);
    lemma_quiet(st2, after);
}

/// A close marker with no region open is reported as one mismatch and
/// nothing more: the scanner's state is unchanged, so the lines after it
/// scan exactly as they would without it, emitting the same output.
pub proof fn lemma_unmatched_close(close_line: Seq<u8>, rest: Seq<Seq<u8>>)
    requires
        is_close_line(close_line),
    ensures
        scan(seq![close_line] + rest).output == scan(rest).output,
        scan(seq![close_line] + rest).mismatches == 1 + scan(rest).mismatches,
{
    lemma_markers_disjoint(close_line);
    lemma_scan_from_concat(init_state(), seq![close_line], rest);
    lemma_scan_single(init_state(), close_line);
    assert(step_state(init_state(), close_line) == init_state());
    assert(Seq::<u8>::empty() + scan(rest).output =~= scan(rest).output);
}

/// Extraction is a function of the source lines alone: two scans of an
/// unchanged source yield identical output and diagnostics — no state
/// carries over from one run to the next.
pub proof fn lemma_extraction_deterministic(lines: Seq<Seq<u8>>, r1: ScanResult, r2: ScanResult)
    requires
        r1 == scan(lines),
        r2 == scan(lines),
    ensures
        r1.output == r2.output,
        r1.mismatches == r2.mismatches,
{
}

/// A blank line inside the captured region is preserved: it is emitted as
/// a bare newline, not dropped.
pub proof fn lemma_blank_line_preserved(st: ScanState, line: Seq<u8>)
    requires
        st.in_content,
        line.len() == 0,
    ensures
        line_output(st, line) == seq![10u8],
{
    assert(trimmed(line) =~= line);
    assert(!is_open_line(line));
    assert(!is_close_line(line));
    assert(Seq::<u8>::empty() + seq![10u8] =~= seq![10u8]);
}

} // verus!
