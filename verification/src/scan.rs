//! The region scanner: marker parsing, the nesting stack, and the
//! single-pass extractor that copies the de-indented body of the region
//! named `Script` to an output buffer.

use vstd::prelude::*;
use vstd::slice::slice_subrange;
use crate::text::{
    trimmed, has_prefix, trim_bounds, has_prefix_bytes, bytes_eq, views_of, copy_range, lines_of,
    split_lines,
};

verus! {

/// The bytes of the open-marker prefix `#region`.
pub open spec fn open_marker() -> Seq<u8> {
    seq![35u8, 114u8, 101u8, 103u8, 105u8, 111u8, 110u8]
}

/// The bytes of the close-marker prefix `#endregion`.
pub open spec fn close_marker() -> Seq<u8> {
    seq![35u8, 101u8, 110u8, 100u8, 114u8, 101u8, 103u8, 105u8, 111u8, 110u8]
}

/// The bytes of the captured region's name, `Script`.
pub open spec fn script_name() -> Seq<u8> {
    seq![83u8, 99u8, 114u8, 105u8, 112u8, 116u8]
}

/// A line whose trimmed content begins with `#region` opens a region.
pub open spec fn is_open_line(line: Seq<u8>) -> bool {
    has_prefix(trimmed(line), open_marker())
}

/// A line whose trimmed content begins with `#endregion` closes a region.
pub open spec fn is_close_line(line: Seq<u8>) -> bool {
    has_prefix(trimmed(line), close_marker())
}

/// The name an open line carries: the trimmed line past the fixed offset 8
/// (the seven marker bytes plus one separator byte, taken verbatim, not
/// re-trimmed). A trimmed line shorter than 8 bytes carries the empty name.
pub open spec fn region_name(line: Seq<u8>) -> Seq<u8> {
    let t = trimmed(line);
    if t.len() >= 8 {
        t.subrange(8, t.len() as int)
    } else {
        Seq::empty()
    }
}

/// The column of the first `#` byte of `s` (or `s`'s length when no `#`
/// occurs): the indentation recorded when the captured region opens.
pub open spec fn hash_column(s: Seq<u8>) -> nat
    decreases s.len(),
{
    if s.len() == 0 {
        0
    } else if s[0] == 35 {
        0
    } else {
        hash_column(s.drop_first()) + 1
    }
}

/// The scanner's state between lines: the stack of open region names, and
/// whether the scanner is inside the captured region, at which indentation.
pub struct ScanState {
    /// Names of the currently open regions, innermost last.
    pub stack: Seq<Seq<u8>>,
    /// True while inside the region named `Script`.
    pub in_content: bool,
    /// Column at which the captured region opened; meaningful while
    /// `in_content` holds.
    pub indent: nat,
}

/// What one scan pass yields: the final state, the emitted bytes, and how
/// many unmatched close markers were seen.
pub struct ScanResult {
    /// State after the scanned lines.
    pub state: ScanState,
    /// Bytes emitted for the scanned lines.
    pub output: Seq<u8>,
    /// Number of close markers seen with an empty stack.
    pub mismatches: int,
}

/// The state before any line has been scanned.
pub open spec fn init_state() -> ScanState {
    ScanState { stack: Seq::empty(), in_content: false, indent: 0 }
}

/// The state after scanning one more line from state `st`.
pub open spec fn step_state(st: ScanState, line: Seq<u8>) -> ScanState {
    if is_open_line(line) {
        let name = region_name(line);
        ScanState {
            stack: st.stack.push(name),
            in_content: if name == script_name() {
                true
            } else {
                st.in_content
            },
            indent: if name == script_name() {
                hash_column(line)
            } else {
                st.indent
            },
        }
    } else if is_close_line(line) {
        if st.stack.len() == 0 {
            st
        } else {
            ScanState {
                stack: st.stack.drop_last(),
                in_content: if st.stack.last() == script_name() {
                    false
                } else {
                    st.in_content
                },
                indent: st.indent,
            }
        }
    } else {
        st
    }
}

/// One body line as it is emitted: the line with its first `c` bytes
/// dropped (emptied when it is no longer than `c`), and a newline.
pub open spec fn deindented(line: Seq<u8>, c: nat) -> Seq<u8> {
    (if line.len() > c {
        line.skip(c as int)
    } else {
        Seq::empty()
    }) + seq![10u8]
}

/// Every line of `lines` as it is emitted from inside the captured region:
/// each de-indented by `c` bytes and newline-terminated, in order.
pub open spec fn deindent_all(lines: Seq<Seq<u8>>, c: nat) -> Seq<u8>
    decreases lines.len(),
{
    if lines.len() == 0 {
        Seq::empty()
    } else {
        deindented(lines[0], c) + deindent_all(lines.drop_first(), c)
    }
}

/// The bytes emitted for one line scanned from state `st`: marker lines and
/// lines outside the captured region emit nothing.
pub open spec fn line_output(st: ScanState, line: Seq<u8>) -> Seq<u8> {
    if is_open_line(line) || is_close_line(line) {
        Seq::empty()
    } else if st.in_content {
        deindented(line, st.indent)
    } else {
        Seq::empty()
    }
}

/// Whether one line scanned from state `st` is an unmatched close marker.
pub open spec fn line_mismatch(st: ScanState, line: Seq<u8>) -> int {
    if !is_open_line(line) && is_close_line(line) && st.stack.len() == 0 {
        1
    } else {
        0
    }
}

/// The scan of `lines` starting from state `st`.
pub open spec fn scan_from(st: ScanState, lines: Seq<Seq<u8>>) -> ScanResult
    decreases lines.len(),
{
    if lines.len() == 0 {
        ScanResult { state: st, output: Seq::empty(), mismatches: 0 }
    } else {
        let rest = scan_from(step_state(st, lines[0]), lines.drop_first());
        ScanResult {
            state: rest.state,
            output: line_output(st, lines[0]) + rest.output,
            mismatches: line_mismatch(st, lines[0]) + rest.mismatches,
        }
    }
}

/// The scan of `lines` from the initial state: what one extraction pass
/// emits and reports.
pub open spec fn scan(lines: Seq<Seq<u8>>) -> ScanResult {
    scan_from(init_state(), lines)
}

/// What the extractor hands back: the emitted bytes and the number of
/// unmatched close markers (each one a diagnostic, none fatal).
pub struct Extraction {
    /// The de-indented body of the captured region, one newline-terminated
    /// output line per body line.
    pub output: Vec<u8>,
    /// How many close markers were seen with no region open.
    pub mismatches: usize,
}

proof fn lemma_hash_column_at(s: Seq<u8>, i: int)
    requires
        0 <= i < s.len(),
        s[i] == 35,
        forall|k: int| 0 <= k < i ==> s[k] != 35,
    ensures
        hash_column(s) == i,
    decreases i,
{
    if i > 0 {
        lemma_hash_column_at(s.drop_first(), i - 1);
    }
}

fn find_hash(line: &[u8]) -> (r: usize)
    requires
        exists|k: int| 0 <= k < line@.len() && line@[k] == 35,
    ensures
        r < line@.len(),
        r as nat == hash_column(line@),
{
    let n: usize = line.len();
    let ghost w: int = choose|k: int| 0 <= k < line@.len() && line@[k] == 35;
    let mut i: usize = 0;
    while line[i] != 35
        invariant
            0 <= i < n,
            n == line@.len(),
            forall|k: int| 0 <= k < i ==> line@[k] != 35,
            0 <= w < line@.len(),
            line@[w] == 35,
            i <= w,
        decreases n - i,
    {
        i = i + 1;
    }
    proof {
        lemma_hash_column_at(line@, i as int);
    }
    i
}

fn open_marker_bytes() -> (v: Vec<u8>)
    ensures
        v@ == open_marker(),
{
    let mut v: Vec<u8> = Vec::new();
    v.push(35u8);
    v.push(114u8);
    v.push(101u8);
    v.push(103u8);
    v.push(105u8);
    v.push(111u8);
    v.push(110u8);
    proof {
        assert(v@ =~= open_marker());
    }
    v
}

fn close_marker_bytes() -> (v: Vec<u8>)
    ensures
        v@ == close_marker(),
{
    let mut v: Vec<u8> = Vec::new();
    v.push(35u8);
    v.push(101u8);
    v.push(110u8);
    v.push(100u8);
    v.push(114u8);
    v.push(101u8);
    v.push(103u8);
    v.push(105u8);
    v.push(111u8);
    v.push(110u8);
    proof {
        assert(v@ =~= close_marker());
    }
    v
}

fn script_name_bytes() -> (v: Vec<u8>)
    ensures
        v@ == script_name(),
{
    let mut v: Vec<u8> = Vec::new();
    v.push(83u8);
    v.push(99u8);
    v.push(114u8);
    v.push(105u8);
    v.push(112u8);
    v.push(116u8);
    proof {
        assert(v@ =~= script_name());
    }
    v
}

/// Scans `lines` once, tracking region nesting, and returns the de-indented
/// body of the region named `Script` together with the number of unmatched
/// close markers observed.
pub fn extract_script(lines: &Vec<Vec<u8>>) -> (r: Extraction)
    ensures
        r.output@ == scan(views_of(lines@)).output,
        r.mismatches as int == scan(views_of(lines@)).mismatches,
{
    let ghost all: Seq<Seq<u8>> = views_of(lines@);
    let open_m = open_marker_bytes();
    let close_m = close_marker_bytes();
    let script_n = script_name_bytes();
    let mut stack: Vec<Vec<u8>> = Vec::new();
    let mut in_content = false;
    let mut content_indent: usize = 0;
    let mut out: Vec<u8> = Vec::new();
    let mut mismatches: usize = 0;
    let mut i: usize = 0;
    proof {
        assert(all.skip(0) =~= all);
        assert(views_of(stack@) =~= Seq::<Seq<u8>>::empty());
        assert(ScanState {
            stack: views_of(stack@),
            in_content: in_content,
            indent: content_indent as nat,
        } == init_state());
        assert(out@ + scan(all).output =~= scan(all).output);
    }
    while i < lines.len()
        invariant
            i <= lines@.len(),
            all == views_of(lines@),
            all.len() == lines@.len(),
            open_m@ == open_marker(),
            close_m@ == close_marker(),
            script_n@ == script_name(),
            mismatches <= i,
            scan(all).output == out@ + scan_from(
                ScanState {
                    stack: views_of(stack@),
                    in_content: in_content,
                    indent: content_indent as nat,
                },
                all.skip(i as int),
            ).output,
            scan(all).mismatches == mismatches + scan_from(
                ScanState {
                    stack: views_of(stack@),
                    in_content: in_content,
                    indent: content_indent as nat,
                },
                all.skip(i as int),
            ).mismatches,
        decreases lines@.len() - i,
    {
        let ghost st = ScanState {
            stack: views_of(stack@),
            in_content: in_content,
            indent: content_indent as nat,
        };
        let ghost rem: Seq<Seq<u8>> = all.skip(i as int);
        let ghost out0: Seq<u8> = out@;
        let ghost mism0: usize = mismatches;
        let line: &Vec<u8> = &lines[i];
        proof {
            assert(rem[0] == all[i as int]);
            assert(rem.drop_first() =~= all.skip(i as int + 1));
            assert(line@ == all[i as int]);
        }
        let (a, b): (usize, usize) = trim_bounds(line.as_slice());
        let t: &[u8] = slice_subrange(line.as_slice(), a, b);
        proof {
            assert(t@ == trimmed(line@));
        }
        if has_prefix_bytes(t, open_m.as_slice()) {
            let name = if b - a >= 8 {
                copy_range(t, 8, b - a)
            } else {
                Vec::new()
            };
            proof {
                assert(name@ =~= region_name(line@));
            }
            let is_script = bytes_eq(name.as_slice(), script_n.as_slice());
            stack.push(name);
            proof {
                assert(views_of(stack@) =~= st.stack.push(region_name(line@)));
            }
            if is_script {
                in_content = true;
                proof {
                    assert(trimmed(line@)[0] == 35) by {
                        assert(trimmed(line@).subrange(0, 7) == open_marker());
                        assert(trimmed(line@).subrange(0, 7)[0] == trimmed(line@)[0]);
                    }
                    assert(line@[a as int] == 35);
                }
                content_indent = find_hash(line.as_slice());
            }
        } else if has_prefix_bytes(t, close_m.as_slice()) {
            let popped = stack.pop();
            match popped {
                None => {
                    mismatches = mismatches + 1;
                    proof {
                        assert(views_of(stack@) =~= st.stack);
                        assert(st.stack.len() == 0);
                    }
                },
                Some(p) => {
                    proof {
                        assert(st.stack.len() > 0);
                        assert(p@ == st.stack.last());
                        assert(views_of(stack@) =~= st.stack.drop_last());
                    }
                    if bytes_eq(p.as_slice(), script_n.as_slice()) {
                        in_content = false;
                    }
                },
            }
        } else {
            if in_content {
                if line.len() > content_indent {
                    let mut piece = copy_range(line.as_slice(), content_indent, line.len());
                    proof {
                        assert(piece@ =~= line@.skip(content_indent as int));
                    }
                    out.append(&mut piece);
                }
                out.push(10u8);
                proof {
                    assert(out@ =~= out0 + line_output(st, line@));
                }
            }
        }
        proof {
            let st2 = ScanState {
                stack: views_of(stack@),
                in_content: in_content,
                indent: content_indent as nat,
            };
            assert(st2 == step_state(st, all[i as int]));
            assert(out@ =~= out0 + line_output(st, all[i as int]));
            assert(mismatches == mism0 + line_mismatch(st, all[i as int]));
            assert(scan_from(st, rem).output == line_output(st, all[i as int]) + scan_from(
                st2,
                all.skip(i as int + 1),
            ).output);
            assert(out@ + scan_from(st2, all.skip(i as int + 1)).output =~= out0 + scan_from(
                st,
                rem,
            ).output);
        }
        i = i + 1;
    }
    proof {
        assert(all.skip(i as int) =~= Seq::<Seq<u8>>::empty());
        assert(out@ + Seq::<u8>::empty() =~= out@);
    }
    Extraction { output: out, mismatches: mismatches }
}

/// Splits a source buffer into lines and extracts the body of the region
/// named `Script`, de-indented, together with the number of unmatched
/// close markers observed.
pub fn extract_from_source(src: &Vec<u8>) -> (r: Extraction)
    ensures
        r.output@ == scan(lines_of(src@)).output,
        r.mismatches as int == scan(lines_of(src@)).mismatches,
{
    let lines = split_lines(src);
    extract_script(&lines)
}

} // verus!
