//! Recursively scans files for literal occurrences of a target string and
//! reports each match's file, line, and column, together with the byte span
//! that a diagnostic renderer highlights.
//!
//! The scanning and offset arithmetic here is pure: directory walking, file
//! reading, and diagnostic printing live with the caller, which hands file
//! paths and contents in as plain values.

use vstd::prelude::*;
use vstd::string::StringSliceAdditionalSpecFns;

pub mod analysis;
pub mod lines;
pub mod search;

use crate::analysis::lemma_match_round_trip;
use crate::analysis::matches_spec;
use crate::analysis::results_view;
use crate::analysis::scan_spec;
use crate::analysis::FileAnalysis;
use crate::analysis::FileEntry;
use crate::lines::lemma_offset_sum_bound;
use crate::lines::lemma_offset_sum_monotone;
use crate::lines::offset_sum;
use crate::lines::split_lines;
use crate::lines::split_lines_spec;

verus! {

/// A 1-based position of a match inside a file: line number, and byte index
/// of the match's start within that line.
#[derive(Clone, Copy, Debug, PartialEq, Eq, Structural)]
pub struct Location {
    pub line: usize,
    pub column: usize,
}

/// One occurrence of the target: the file it was found in and where.
#[derive(Debug, PartialEq, Eq)]
pub struct TargetResult {
    pub file_name: String,
    pub location: Location,
}

impl View for TargetResult {
    type V = (Seq<char>, int, int);

    open spec fn view(&self) -> (Seq<char>, int, int) {
        (self.file_name@, self.location.line as int, self.location.column as int)
    }
}

/// A scan over a list of files for one target string.
pub struct Fuzz {
    /// The target string to find within input location(s)
    pub input: String,
}

/// The byte span a diagnostic highlights for a match at the 1-based
/// (line, column): the lengths of the preceding lines plus one separator byte
/// each, plus the 0-based column, extending for the target's byte length —
/// or nothing, when the location or the span does not lie within the content.
pub open spec fn report_span_spec(content: Seq<u8>, tlen: int, line: int, col: int) -> Option<
    (int, int),
> {
    let lines = split_lines_spec(content);
    if 1 <= line <= lines.len() && 1 <= col {
        let start = offset_sum(lines, line - 1) + (col - 1);
        if start + tlen <= content.len() {
            Some((start, start + tlen))
        } else {
            None
        }
    } else {
        None
    }
}

/// On the very content a match was found in, the diagnostic span is always
/// produced, and it ends within the content: reporting a match can come up
/// empty only when the file changed between scan and report.
pub proof fn lemma_fresh_match_has_span(content: Seq<u8>, tgt: Seq<u8>, j: int)
    requires
        0 <= j < matches_spec(content, tgt).len(),
    ensures
        ({
            let m = matches_spec(content, tgt)[j];
            let span = report_span_spec(content, tgt.len() as int, m.0, m.1);
            &&& span is Some
            &&& 0 <= span->Some_0.0 <= span->Some_0.1 <= content.len()
        }),
{
    let m = matches_spec(content, tgt)[j];
    let lines = split_lines_spec(content);
    lemma_match_round_trip(content, tgt, j);
    lemma_offset_sum_bound(content, m.0 - 1);
    lemma_offset_sum_monotone(lines, 0, m.0 - 1);
}

impl Fuzz {
    pub fn new(input: String) -> (r: Self)
        ensures
            r.input == input,
    {
        Fuzz { input }
    }

    /// Scans the given files for this scan's target: every match of every
    /// non-ignored file, in file order, then line order within a file.
    pub fn run(&self, files: &Vec<FileEntry>, ignored: &Vec<Vec<u8>>) -> (r: Vec<TargetResult>)
        ensures
            results_view(r@) == scan_spec(
                files@,
                ignored.deep_view(),
                vstd::utf8::encode_utf8(self.input@),
                files@.len() as int,
            ),
    {
        FileAnalysis::results(self.input.as_str(), files, ignored)
    }

    /// The byte span within `content` that a diagnostic highlights for
    /// `result`, or `None` when the recorded location does not lie within
    /// `content` (the file changed between scan and report): a stale match is
    /// skipped rather than rendered wrongly.
    pub fn build_report(&self, content: &str, result: &TargetResult) -> (r: Option<(usize, usize)>)
        ensures
            ({
                let span = report_span_spec(
                    content.spec_bytes(),
                    vstd::utf8::encode_utf8(self.input@).len() as int,
                    result.location.line as int,
                    result.location.column as int,
                );
                match r {
                    Some(p) => span == Some((p.0 as int, p.1 as int)),
                    None => span is None,
                }
            }),
    {
        let cbytes = content.as_bytes();
        let tlen = self.input.as_str().as_bytes().len();
        let clen = cbytes.len();
        let lines = split_lines(cbytes);
        let ghost lns = split_lines_spec(cbytes@);
        let line = result.location.line;
        let col = result.location.column;
        if line < 1 || line > lines.len() || col < 1 {
            return None;
        }
        let stop = line - 1;
        let mut sum: usize = 0;
        let mut k: usize = 0;
        while k < stop
            invariant
                lines.deep_view() == lns,
                lns == split_lines_spec(cbytes@),
                cbytes@ == content.spec_bytes(),
                clen == cbytes@.len(),
                0 <= k <= stop,
                stop < lns.len(),
                sum == offset_sum(lns, k as int),
            decreases stop - k,
        {
            proof {
                lemma_offset_sum_bound(cbytes@, stop as int);
                lemma_offset_sum_monotone(lns, k + 1, stop as int);
            }
            assert(lines@[k as int]@ =~= lns[k as int]);
            sum = sum + lines[k].len() + 1;
            k += 1;
        }
        proof {
            lemma_offset_sum_bound(cbytes@, stop as int);
        }
        let avail = clen - sum;
        if col - 1 > avail {
            return None;
        }
        let start = sum + (col - 1);
        if tlen > clen - start {
            return None;
        }
        Some((start, start + tlen))
    }
}

} // verus!
