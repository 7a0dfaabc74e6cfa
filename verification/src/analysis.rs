//! The scanner: finds, in each file's content, every line that holds the
//! target string, records the first occurrence on each such line, filters
//! files whose paths match an ignore pattern, and gathers the matches of a
//! whole file list in order.

use vstd::prelude::*;

use vstd::string::StringSliceAdditionalSpecFns;

use crate::lines::split_lines;
use crate::lines::split_lines_spec;
use crate::search::contains_bytes;
use crate::search::find_first;
use crate::search::first_occurrence;
use crate::search::occurs;
use crate::search::occurs_at;
use crate::Location;
use crate::TargetResult;

verus! {

/// A file handed to the scanner: its path and its full content. A file that
/// could not be read or decoded is handed in with empty content, so it
/// contributes no matches without aborting the scan.
pub struct FileEntry {
    pub path: String,
    pub content: String,
}

/// The models of a sequence of reported matches: file name, 1-based line,
/// 1-based byte column.
pub open spec fn results_view(r: Seq<TargetResult>) -> Seq<(Seq<char>, int, int)> {
    r.map_values(|t: TargetResult| t@)
}

/// The matches among the first `n` lines: for each line that holds `tgt`,
/// its 1-based line number and the 1-based byte column of the first
/// occurrence on that line.
pub open spec fn matches_up_to(lines: Seq<Seq<u8>>, tgt: Seq<u8>, n: int) -> Seq<(int, int)>
    decreases n,
{
    if n <= 0 {
        Seq::empty()
    } else {
        let prev = matches_up_to(lines, tgt, n - 1);
        if occurs(lines[n - 1], tgt) {
            prev.push((n, first_occurrence(lines[n - 1], tgt) + 1))
        } else {
            prev
        }
    }
}

/// All matches of `tgt` within `content`, in line order.
pub open spec fn matches_spec(content: Seq<u8>, tgt: Seq<u8>) -> Seq<(int, int)> {
    matches_up_to(split_lines_spec(content), tgt, split_lines_spec(content).len() as int)
}

/// The matches of one file, each labelled with the file's name.
pub open spec fn file_matches_spec(name: Seq<char>, content: Seq<u8>, tgt: Seq<u8>) -> Seq<
    (Seq<char>, int, int),
> {
    matches_spec(content, tgt).map_values(|m: (int, int)| (name, m.0, m.1))
}

/// Whether a path is excluded: some ignore pattern occurs in its UTF-8 bytes
/// as a substring.
pub open spec fn path_ignored(path: Seq<char>, ignored: Seq<Seq<u8>>) -> bool {
    exists|k: int|
        0 <= k < ignored.len() && occurs(vstd::utf8::encode_utf8(path), ignored[k])
}

/// The matches of the first `n` files that are not ignored, in file order.
pub open spec fn scan_spec(
    files: Seq<FileEntry>,
    ignored: Seq<Seq<u8>>,
    tgt: Seq<u8>,
    n: int,
) -> Seq<(Seq<char>, int, int)>
    decreases n,
{
    if n <= 0 {
        Seq::empty()
    } else {
        let prev = scan_spec(files, ignored, tgt, n - 1);
        let f = files[n - 1];
        if path_ignored(f.path@, ignored) {
            prev
        } else {
            prev + file_matches_spec(f.path@, vstd::utf8::encode_utf8(f.content@), tgt)
        }
    }
}

/// The ignore patterns: one per line of the ignore file's content, plus the
/// repository marker directory `.git` when the scan root is a repository.
pub open spec fn ignore_patterns_spec(gitignore: Seq<u8>, is_repo: bool) -> Seq<Seq<u8>> {
    if is_repo {
        split_lines_spec(gitignore).push(seq![46u8, 103u8, 105u8, 116u8])
    } else {
        split_lines_spec(gitignore)
    }
}

pub struct FileAnalysis;

impl FileAnalysis {
    /// Builds the ignore set from the content of the ignore-patterns file
    /// (empty content when the file is missing or unreadable): one substring
    /// pattern per line, plus `.git` when the scan root is a repository.
    pub fn read_gitignore(gitignore_content: &str, is_git_repo: bool) -> (r: Vec<Vec<u8>>)
        ensures
            r.deep_view() == ignore_patterns_spec(gitignore_content.spec_bytes(), is_git_repo),
    {
        let mut pats = split_lines(gitignore_content.as_bytes());
        if is_git_repo {
            let ghost prev = pats.deep_view();
            let mut marker: Vec<u8> = Vec::new();
            // the bytes of ".git"
            marker.push(46);
            marker.push(103);
            marker.push(105);
            marker.push(116);
            assert(marker@ =~= seq![46u8, 103u8, 105u8, 116u8]);
            pats.push(marker);
            assert(pats.deep_view() =~~= prev.push(seq![46u8, 103u8, 105u8, 116u8]));
        }
        pats
    }

    /// Whether some ignore pattern is a substring of `path`'s bytes.
    pub fn is_ignored(path: &str, ignored: &Vec<Vec<u8>>) -> (r: bool)
        ensures
            r == path_ignored(path@, ignored.deep_view()),
    {
        let pbytes = path.as_bytes();
        let n = ignored.len();
        let mut k: usize = 0;
        while k < n
            invariant
                n == ignored@.len(),
                0 <= k <= n,
                pbytes@ == vstd::utf8::encode_utf8(path@),
                forall|m: int| 0 <= m < k ==> !occurs(pbytes@, ignored.deep_view()[m]),
            decreases n - k,
        {
            assert(ignored.deep_view()[k as int] =~= ignored@[k as int]@);
            if contains_bytes(pbytes, ignored[k].as_slice()) {
                assert(occurs(vstd::utf8::encode_utf8(path@), ignored.deep_view()[k as int]));
                assert(path_ignored(path@, ignored.deep_view()));
                return true;
            }
            k += 1;
        }
        assert(!path_ignored(path@, ignored.deep_view())) by {
            if path_ignored(path@, ignored.deep_view()) {
                let m = choose|m: int|
                    0 <= m < ignored.deep_view().len() && occurs(
                        vstd::utf8::encode_utf8(path@),
                        ignored.deep_view()[m],
                    );
            }
        }
        false
    }

    /// Scans one file's content for the target: one match per line that
    /// holds it, at the first occurrence's byte column, in line order. An
    /// empty target deterministically matches every line at column 1.
    pub fn analyze(file_path: &str, content: &str, target: &str) -> (r: Vec<TargetResult>)
        ensures
            results_view(r@) == file_matches_spec(
                file_path@,
                content.spec_bytes(),
                target.spec_bytes(),
            ),
    {
        let cbytes = content.as_bytes();
        let tbytes = target.as_bytes();
        let lines = split_lines(cbytes);
        let ghost lns = lines.deep_view();
        let mut r: Vec<TargetResult> = Vec::new();
        let n = lines.len();
        let mut k: usize = 0;
        while k < n
            invariant
                n == lines@.len(),
                0 <= k <= n,
                lns == lines.deep_view(),
                lns == split_lines_spec(content.spec_bytes()),
                cbytes@ == content.spec_bytes(),
                tbytes@ == target.spec_bytes(),
                results_view(r@) == matches_up_to(lns, tbytes@, k as int).map_values(
                    |m: (int, int)| (file_path@, m.0, m.1),
                ),
            decreases n - k,
        {
            let ghost prev = r@;
            assert(lines@[k as int]@ =~= lns[k as int]);
            let line_slice = lines[k].as_slice();
            let line_len = line_slice.len();
            match find_first(line_slice, tbytes) {
                Some(c) => {
                    proof {
                        // the column fits: c + tbytes@.len() <= line_len <= usize::MAX
                        assert(lns[k as int].len() == line_len);
                        crate::search::lemma_first_occurrence(lns[k as int], tbytes@);
                        if tbytes@.len() == 0 {
                            assert(lns[k as int].subrange(0, 0) =~= tbytes@);
                            assert(occurs_at(lns[k as int], tbytes@, 0));
                        }
                        assert(c + 1 <= usize::MAX) by {
                            assert(occurs_at(lns[k as int], tbytes@, c as int));
                        }
                    }
                    let t = TargetResult {
                        file_name: file_path.to_owned(),
                        location: Location { line: k + 1, column: c + 1 },
                    };
                    assert(t@ == (file_path@, k + 1 as int, c + 1 as int));
                    r.push(t);
                    assert(results_view(r@) =~= results_view(prev).push(t@));
                },
                None => {},
            }
            k += 1;
            proof {
                let cur = matches_up_to(lns, tbytes@, k as int);
                let f = |m: (int, int)| (file_path@, m.0, m.1);
                if occurs(lns[k - 1], tbytes@) {
                    assert(cur == matches_up_to(lns, tbytes@, k - 1).push(
                        (k as int, first_occurrence(lns[k - 1], tbytes@) + 1),
                    ));
                    assert(cur.map_values(f) =~= matches_up_to(lns, tbytes@, k - 1).map_values(
                        f,
                    ).push(f((k as int, first_occurrence(lns[k - 1], tbytes@) + 1))));
                }
            }
        }
        r
    }

    /// Scans every non-ignored file in order, gathering every file's matches
    /// into one sequence: directory-walk order across files, line order
    /// within a file, nothing deduplicated or collapsed.
    pub fn results(target_text: &str, files: &Vec<FileEntry>, ignored: &Vec<Vec<u8>>) -> (r: Vec<
        TargetResult,
    >)
        ensures
            results_view(r@) == scan_spec(
                files@,
                ignored.deep_view(),
                target_text.spec_bytes(),
                files@.len() as int,
            ),
    {
        let mut r: Vec<TargetResult> = Vec::new();
        let n = files.len();
        let mut k: usize = 0;
        while k < n
            invariant
                n == files@.len(),
                0 <= k <= n,
                results_view(r@) == scan_spec(
                    files@,
                    ignored.deep_view(),
                    target_text.spec_bytes(),
                    k as int,
                ),
            decreases n - k,
        {
            let ghost prev = r@;
            let entry = &files[k];
            if !Self::is_ignored(entry.path.as_str(), ignored) {
                let mut found = Self::analyze(
                    entry.path.as_str(),
                    entry.content.as_str(),
                    target_text,
                );
                let ghost found_view = results_view(found@);
                r.append(&mut found);
                assert(results_view(r@) =~= results_view(prev) + found_view);
            }
            k += 1;
        }
        r
    }
}

proof fn lemma_matches_elem(lines: Seq<Seq<u8>>, tgt: Seq<u8>, n: int, j: int)
    requires
        n <= lines.len(),
        0 <= j < matches_up_to(lines, tgt, n).len(),
    ensures
        ({
            let m = matches_up_to(lines, tgt, n)[j];
            &&& 1 <= m.0 <= n
            &&& occurs(lines[m.0 - 1], tgt)
            &&& m.1 == first_occurrence(lines[m.0 - 1], tgt) + 1
        }),
    decreases n,
{
    if n > 0 {
        let prev = matches_up_to(lines, tgt, n - 1);
        if j < prev.len() {
            lemma_matches_elem(lines, tgt, n - 1, j);
            assert(matches_up_to(lines, tgt, n)[j] == prev[j]);
        }
    }
}

/// Every reported match points at a real first occurrence: its line number
/// lies within the content's lines, and slicing the target's byte length from
/// the reported column within that line reproduces the target exactly.
pub proof fn lemma_match_round_trip(content: Seq<u8>, tgt: Seq<u8>, j: int)
    requires
        0 <= j < matches_spec(content, tgt).len(),
    ensures
        ({
            let m = matches_spec(content, tgt)[j];
            let lines = split_lines_spec(content);
            &&& 1 <= m.0 <= lines.len()
            &&& 1 <= m.1
            &&& m.1 - 1 + tgt.len() <= lines[m.0 - 1].len()
            &&& lines[m.0 - 1].subrange(m.1 - 1, m.1 - 1 + tgt.len()) == tgt
        }),
{
    let lines = split_lines_spec(content);
    lemma_matches_elem(lines, tgt, lines.len() as int, j);
    let m = matches_spec(content, tgt)[j];
    crate::search::lemma_first_occurrence(lines[m.0 - 1], tgt);
}

/// Matches within one file are reported in strictly increasing line order:
/// at most one match per line, and no collapsing of distinct lines.
pub proof fn lemma_matches_ordered(content: Seq<u8>, tgt: Seq<u8>, j1: int, j2: int)
    requires
        0 <= j1 < j2 < matches_spec(content, tgt).len(),
    ensures
        matches_spec(content, tgt)[j1].0 < matches_spec(content, tgt)[j2].0,
{
    let lines = split_lines_spec(content);
    lemma_matches_increasing(lines, tgt, lines.len() as int, j1, j2);
}

proof fn lemma_matches_increasing(lines: Seq<Seq<u8>>, tgt: Seq<u8>, n: int, j1: int, j2: int)
    requires
        n <= lines.len(),
        0 <= j1 < j2 < matches_up_to(lines, tgt, n).len(),
    ensures
        matches_up_to(lines, tgt, n)[j1].0 < matches_up_to(lines, tgt, n)[j2].0,
    decreases n,
{
    if n > 0 {
        let prev = matches_up_to(lines, tgt, n - 1);
        if j2 < prev.len() {
            lemma_matches_increasing(lines, tgt, n - 1, j1, j2);
        } else {
            lemma_matches_elem(lines, tgt, n - 1, j1);
            assert(matches_up_to(lines, tgt, n)[j1] == prev[j1]);
        }
    }
}

/// Every line that holds the target is reported, at the first occurrence's
/// column: no match is discarded, whatever other lines of the file match.
pub proof fn lemma_matching_line_reported(content: Seq<u8>, tgt: Seq<u8>, k: int)
    requires
        0 <= k < split_lines_spec(content).len(),
        occurs(split_lines_spec(content)[k], tgt),
    ensures
        exists|j: int|
            0 <= j < matches_spec(content, tgt).len() && matches_spec(content, tgt)[j] == (
                k + 1,
                first_occurrence(split_lines_spec(content)[k], tgt) + 1,
            ),
{
    let lines = split_lines_spec(content);
    lemma_match_reported_up_to(lines, tgt, lines.len() as int, k);
    let m = matches_up_to(lines, tgt, lines.len() as int);
    let j = choose|j: int|
        0 <= j < m.len() && m[j] == (k + 1, first_occurrence(lines[k], tgt) + 1);
    assert(0 <= j < matches_spec(content, tgt).len() && matches_spec(content, tgt)[j] == (
        k + 1,
        first_occurrence(split_lines_spec(content)[k], tgt) + 1,
    ));
}

proof fn lemma_match_reported_up_to(lines: Seq<Seq<u8>>, tgt: Seq<u8>, n: int, k: int)
    requires
        0 <= k < n <= lines.len(),
        occurs(lines[k], tgt),
    ensures
        exists|j: int|
            0 <= j < matches_up_to(lines, tgt, n).len() && matches_up_to(lines, tgt, n)[j] == (
                k + 1,
                first_occurrence(lines[k], tgt) + 1,
            ),
    decreases n,
{
    let prev = matches_up_to(lines, tgt, n - 1);
    let cur = matches_up_to(lines, tgt, n);
    if k == n - 1 {
        assert(cur[prev.len() as int] == (k + 1, first_occurrence(lines[k], tgt) + 1));
    } else {
        lemma_match_reported_up_to(lines, tgt, n - 1, k);
        let j = choose|j: int|
            0 <= j < prev.len() && prev[j] == (k + 1, first_occurrence(lines[k], tgt) + 1);
        assert(cur[j] == prev[j]);
    }
}

/// The reported entry `cur[j]` of a scan is one of the matches of the
/// non-ignored file at index `i`, carrying that file's path.
pub open spec fn scan_entry_from(
    files: Seq<FileEntry>,
    ignored: Seq<Seq<u8>>,
    tgt: Seq<u8>,
    entry: (Seq<char>, int, int),
    i: int,
    x: int,
) -> bool {
    let file_matches = matches_spec(vstd::utf8::encode_utf8(files[i].content@), tgt);
    &&& !path_ignored(files[i].path@, ignored)
    &&& entry.0 == files[i].path@
    &&& 0 <= x < file_matches.len()
    &&& file_matches[x] == (entry.1, entry.2)
}

/// A match is only ever reported from a file that the ignore set lets
/// through, and is then a real match of that file's content: a file whose
/// path holds an ignore pattern contributes nothing.
pub proof fn lemma_matches_only_from_unignored(
    files: Seq<FileEntry>,
    ignored: Seq<Seq<u8>>,
    tgt: Seq<u8>,
    n: int,
    j: int,
)
    requires
        0 <= n <= files.len(),
        0 <= j < scan_spec(files, ignored, tgt, n).len(),
    ensures
        exists|i: int, x: int|
            0 <= i < n && scan_entry_from(
                files,
                ignored,
                tgt,
                scan_spec(files, ignored, tgt, n)[j],
                i,
                x,
            ),
    decreases n,
{
    if n > 0 {
        let prev = scan_spec(files, ignored, tgt, n - 1);
        let cur = scan_spec(files, ignored, tgt, n);
        if path_ignored(files[n - 1].path@, ignored) {
            lemma_matches_only_from_unignored(files, ignored, tgt, n - 1, j);
        } else {
            if j < prev.len() {
                lemma_matches_only_from_unignored(files, ignored, tgt, n - 1, j);
                assert(cur[j] == prev[j]);
            } else {
                let content = vstd::utf8::encode_utf8(files[n - 1].content@);
                let fm = file_matches_spec(files[n - 1].path@, content, tgt);
                let x = j - prev.len();
                assert(cur[j] == fm[x]);
                assert(fm[x] == (files[n - 1].path@, matches_spec(content, tgt)[x].0, matches_spec(
                    content,
                    tgt,
                )[x].1));
                assert(scan_entry_from(files, ignored, tgt, cur[j], n - 1, x));
            }
        }
    }
}

/// With an empty target, the chosen behavior: every line matches, at column
/// 1, deterministically — exactly one match per line of the content.
pub proof fn lemma_empty_target(content: Seq<u8>)
    ensures
        matches_spec(content, Seq::empty()).len() == split_lines_spec(content).len(),
        forall|j: int|
            0 <= j < split_lines_spec(content).len() ==> matches_spec(content, Seq::empty())[j]
                == (j + 1, 1int),
{
    let lines = split_lines_spec(content);
    lemma_empty_target_up_to(lines, lines.len() as int);
}

proof fn lemma_empty_target_up_to(lines: Seq<Seq<u8>>, n: int)
    requires
        0 <= n <= lines.len(),
    ensures
        matches_up_to(lines, Seq::empty(), n).len() == n,
        forall|j: int| 0 <= j < n ==> matches_up_to(lines, Seq::empty(), n)[j] == (j + 1, 1int),
    decreases n,
{
    if n > 0 {
        lemma_empty_target_up_to(lines, n - 1);
        assert(lines[n - 1].subrange(0, 0) =~= Seq::<u8>::empty());
        assert(occurs_at(lines[n - 1], Seq::empty(), 0));
        assert(first_occurrence(lines[n - 1], Seq::empty()) == 0);
        let prev = matches_up_to(lines, Seq::empty(), n - 1);
        assert(matches_up_to(lines, Seq::empty(), n) == prev.push((n, 1int)));
    }
}

/// Scanning an unchanged file list twice yields identical matches: the scan's
/// outcome is a function of the files, the ignore set, and the target alone.
pub proof fn lemma_scan_deterministic(
    files: Seq<FileEntry>,
    ignored: Seq<Seq<u8>>,
    tgt: Seq<u8>,
    r1: Seq<(Seq<char>, int, int)>,
    r2: Seq<(Seq<char>, int, int)>,
)
    requires
        r1 == scan_spec(files, ignored, tgt, files.len() as int),
        r2 == scan_spec(files, ignored, tgt, files.len() as int),
    ensures
        r1 == r2,
{
}

} // verus!
