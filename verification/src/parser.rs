//! Structural conflict parsing: locating marker lines, extracting the three
//! sections of a region, and computing the context windows around it.

use vstd::prelude::*;

use crate::markers::MarkerKind;
use crate::markers::has_nested_marker;
use crate::markers::has_run_prefix;
use crate::markers::is_labeled_marker_line;
use crate::markers::line_has_nested_marker;
use crate::markers::line_matches_marker;
use crate::markers::marker_line_matches;
use crate::strutil::is_terminated_line;
use crate::strutil::join_range;
use crate::strutil::lemma_line_split_props;
use crate::strutil::lemma_line_split_roundtrip;
use crate::strutil::line_split;
use crate::strutil::split_lines;
use crate::types::Conflict;
use crate::types::ConflictView;
use crate::types::FileInput;
use crate::types::FileInputView;
use crate::types::GitUtils;
use crate::types::ResolveError;

verus! {

/// First line index `i >= from` whose line matches marker kind `k`.
pub open spec fn first_marker(lines: Seq<Seq<char>>, from: int, k: MarkerKind, w: nat) -> Option<
    int,
>
    decreases lines.len() - from,
{
    if from < 0 || from >= lines.len() {
        None
    } else if marker_line_matches(lines[from], k, w) {
        Some(from)
    } else {
        first_marker(lines, from + 1, k, w)
    }
}

pub proof fn lemma_first_marker(lines: Seq<Seq<char>>, from: int, k: MarkerKind, w: nat)
    requires
        0 <= from,
    ensures
        match first_marker(lines, from, k, w) {
            Some(i) => from <= i < lines.len() && marker_line_matches(lines[i], k, w) && (forall|
                j: int,
            | from <= j < i ==> !marker_line_matches(lines[j], k, w)),
            None => forall|j: int|
                from <= j < lines.len() ==> !marker_line_matches(lines[j], k, w),
        },
    decreases lines.len() - from,
{
    if from < lines.len() && !marker_line_matches(lines[from], k, w) {
        lemma_first_marker(lines, from + 1, k, w);
    }
}

pub fn find_marker(lines: &Vec<String>, from: usize, k: MarkerKind, w: usize) -> (r: Option<usize>)
    ensures
        match r {
            Some(i) => first_marker(lines.deep_view(), from as int, k, w as nat) == Some(i as int),
            None => first_marker(lines.deep_view(), from as int, k, w as nat) is None,
        },
{
    let n = lines.len();
    let mut i = from;
    while i < n
        invariant
            from <= i,
            n == lines@.len(),
            first_marker(lines.deep_view(), from as int, k, w as nat) == first_marker(
                lines.deep_view(),
                i as int,
                k,
                w as nat,
            ),
        decreases n - i,
    {
        let hit = line_matches_marker(lines[i].as_str(), k, w);
        proof {
            assert(lines.deep_view()[i as int] == lines@[i as int]@);
        }
        if hit {
            return Some(i);
        }
        i += 1;
    }
    None
}

/// The end-marker matcher of the region scanner: the end run, on a line that
/// is newline-terminated, since a region must end in a complete line.
pub open spec fn scan_end_matches(line: Seq<char>, w: nat) -> bool {
    has_run_prefix(line, '>', w) && line.len() >= 1 && line[line.len() - 1] == '\n'
}

pub open spec fn first_scan_end(lines: Seq<Seq<char>>, from: int, w: nat) -> Option<int>
    decreases lines.len() - from,
{
    if from < 0 || from >= lines.len() {
        None
    } else if scan_end_matches(lines[from], w) {
        Some(from)
    } else {
        first_scan_end(lines, from + 1, w)
    }
}

pub proof fn lemma_first_scan_end(lines: Seq<Seq<char>>, from: int, w: nat)
    requires
        0 <= from,
    ensures
        match first_scan_end(lines, from, w) {
            Some(i) => from <= i < lines.len() && scan_end_matches(lines[i], w) && (forall|j: int|
                from <= j < i ==> !scan_end_matches(lines[j], w)),
            None => forall|j: int| from <= j < lines.len() ==> !scan_end_matches(lines[j], w),
        },
    decreases lines.len() - from,
{
    if from < lines.len() && !scan_end_matches(lines[from], w) {
        lemma_first_scan_end(lines, from + 1, w);
    }
}

pub fn find_scan_end(lines: &Vec<String>, from: usize, w: usize) -> (r: Option<usize>)
    ensures
        match r {
            Some(i) => first_scan_end(lines.deep_view(), from as int, w as nat) == Some(i as int),
            None => first_scan_end(lines.deep_view(), from as int, w as nat) is None,
        },
{
    let n = lines.len();
    let mut i = from;
    while i < n
        invariant
            from <= i,
            n == lines@.len(),
            first_scan_end(lines.deep_view(), from as int, w as nat) == first_scan_end(
                lines.deep_view(),
                i as int,
                w as nat,
            ),
        decreases n - i,
    {
        let line = lines[i].as_str();
        let ln = line.unicode_len();
        let hit = crate::markers::line_has_run_prefix(line, '>', w) && ln >= 1 && line.get_char(
            ln - 1,
        ) == '\n';
        proof {
            assert(lines.deep_view()[i as int] == lines@[i as int]@);
        }
        if hit {
            return Some(i);
        }
        i += 1;
    }
    None
}

/// First line index `i >= from` holding a nested (over-wide) marker run.
pub open spec fn first_nested(lines: Seq<Seq<char>>, from: int, w: nat) -> Option<int>
    decreases lines.len() - from,
{
    if from < 0 || from >= lines.len() {
        None
    } else if has_nested_marker(lines[from], w) {
        Some(from)
    } else {
        first_nested(lines, from + 1, w)
    }
}

pub proof fn lemma_first_nested(lines: Seq<Seq<char>>, from: int, w: nat)
    requires
        0 <= from,
    ensures
        match first_nested(lines, from, w) {
            Some(i) => from <= i < lines.len() && has_nested_marker(lines[i], w) && (forall|j: int|
                from <= j < i ==> !has_nested_marker(lines[j], w)),
            None => forall|j: int| from <= j < lines.len() ==> !has_nested_marker(lines[j], w),
        },
    decreases lines.len() - from,
{
    if from < lines.len() && !has_nested_marker(lines[from], w) {
        lemma_first_nested(lines, from + 1, w);
    }
}

pub fn find_nested(lines: &Vec<String>, from: usize, w: usize) -> (r: Option<usize>)
    requires
        w < usize::MAX,
    ensures
        match r {
            Some(i) => first_nested(lines.deep_view(), from as int, w as nat) == Some(i as int),
            None => first_nested(lines.deep_view(), from as int, w as nat) is None,
        },
{
    let n = lines.len();
    let mut i = from;
    while i < n
        invariant
            from <= i,
            n == lines@.len(),
            w < usize::MAX,
            first_nested(lines.deep_view(), from as int, w as nat) == first_nested(
                lines.deep_view(),
                i as int,
                w as nat,
            ),
        decreases n - i,
    {
        let hit = line_has_nested_marker(lines[i].as_str(), w);
        proof {
            assert(lines.deep_view()[i as int] == lines@[i as int]@);
        }
        if hit {
            return Some(i);
        }
        i += 1;
    }
    None
}

/// The start of the longest suffix of `before` that contains no end-marker
/// line: a head context window never walks back across the end of an earlier
/// conflict.
pub open spec fn head_keep_start(before: Seq<Seq<char>>, w: nat) -> int
    decreases before.len(),
{
    if before.len() == 0 {
        0
    } else if marker_line_matches(before.last(), MarkerKind::End, w) {
        before.len() as int
    } else {
        head_keep_start(before.drop_last(), w)
    }
}

pub proof fn lemma_head_keep_start(before: Seq<Seq<char>>, w: nat)
    ensures
        0 <= head_keep_start(before, w) <= before.len(),
        forall|j: int|
            head_keep_start(before, w) <= j < before.len() ==> !marker_line_matches(
                before[j],
                MarkerKind::End,
                w,
            ),
        head_keep_start(before, w) > 0 ==> marker_line_matches(
            before[head_keep_start(before, w) - 1],
            MarkerKind::End,
            w,
        ),
    decreases before.len(),
{
    if before.len() > 0 && !marker_line_matches(before.last(), MarkerKind::End, w) {
        lemma_head_keep_start(before.drop_last(), w);
        assert forall|j: int|
            head_keep_start(before, w) <= j < before.len() implies !marker_line_matches(
            before[j],
            MarkerKind::End,
            w,
        ) by {
            if j < before.len() - 1 {
                assert(before[j] == before.drop_last()[j]);
            }
        }
    }
}

/// The context windows around a region: how many lines each window keeps and
/// their text. The head window is the tail of the lines before the region,
/// cut at the nearest earlier end marker, then at the configured width; the
/// tail window is the front of the lines after the region, cut at the
/// nearest later local marker, then at the configured width.
pub open spec fn gen_context_spec(
    content_lines: Seq<Seq<char>>,
    conflict_len: int,
    start_line: int,
    w: nat,
    ctx: int,
) -> (int, int, Seq<char>, Seq<char>) {
    let before = content_lines.subrange(0, start_line - 1);
    let h = head_keep_start(before, w);
    let ws = if before.len() - ctx > h {
        before.len() - ctx
    } else {
        h
    };
    let head = before.subrange(ws, before.len() as int).flatten();
    let after = content_lines.subrange(start_line - 1 + conflict_len, content_lines.len() as int);
    let t = match first_marker(after, 0, MarkerKind::Local, w) {
        Some(i) => i,
        None => after.len() as int,
    };
    let tl = if t < ctx {
        t
    } else {
        ctx
    };
    (before.len() - ws, tl, head, after.subrange(0, tl).flatten())
}

/// Shifting a marker search to a suffix of the line sequence.
pub proof fn lemma_first_marker_shift(lines: Seq<Seq<char>>, p: int, k: MarkerKind, w: nat)
    requires
        0 <= p <= lines.len(),
    ensures
        first_marker(lines.subrange(p, lines.len() as int), 0, k, w) == match first_marker(
            lines,
            p,
            k,
            w,
        ) {
            Some(i) => Some(i - p),
            None => None::<int>,
        },
{
    let suffix = lines.subrange(p, lines.len() as int);
    lemma_first_marker(lines, p, k, w);
    lemma_first_marker(suffix, 0, k, w);
    match first_marker(lines, p, k, w) {
        Some(i) => {
            match first_marker(suffix, 0, k, w) {
                Some(j) => {
                    assert(marker_line_matches(lines[j + p], k, w));
                    assert(marker_line_matches(suffix[i - p], k, w));
                },
                None => {
                    assert(marker_line_matches(suffix[i - p], k, w));
                },
            }
        },
        None => {
            match first_marker(suffix, 0, k, w) {
                Some(j) => {
                    assert(marker_line_matches(lines[j + p], k, w));
                },
                None => {},
            }
        },
    }
}

impl GitUtils {
    /// Computes `(head line count, tail line count, head text, tail text)`
    /// for a region of `conflict_len` lines whose local marker stands on
    /// one-based line `start_line`.
    pub fn gen_context(
        &self,
        conflict_len: usize,
        content_lines: &Vec<String>,
        start_line: usize,
        marker_size: usize,
    ) -> (r: (usize, usize, String, String))
        requires
            1 <= start_line,
            start_line - 1 + conflict_len <= content_lines@.len(),
            marker_size < usize::MAX,
        ensures
            ({
                let g = gen_context_spec(
                    content_lines.deep_view(),
                    conflict_len as int,
                    start_line as int,
                    marker_size as nat,
                    self.context_lines.code_context_lines as int,
                );
                r.0 == g.0 && r.1 == g.1 && r.2@ == g.2 && r.3@ == g.3
            }),
    {
        let ghost deep = content_lines.deep_view();
        let n = content_lines.len();
        let before_len = start_line - 1;
        let ghost before = deep.subrange(0, before_len as int);
        let ctx = self.context_lines.code_context_lines as usize;

        let mut h = before_len;
        proof {
            assert(before.subrange(0, before_len as int) =~= before);
        }
        while h > 0 && !line_matches_marker(content_lines[h - 1].as_str(), MarkerKind::End,
        marker_size)
            invariant
                h <= before_len <= content_lines@.len(),
                marker_size < usize::MAX,
                before == deep.subrange(0, before_len as int),
                deep == content_lines.deep_view(),
                head_keep_start(before, marker_size as nat) == head_keep_start(
                    before.subrange(0, h as int),
                    marker_size as nat,
                ),
            decreases h,
        {
            proof {
                let cur = before.subrange(0, h as int);
                let prev = before.subrange(0, h - 1);
                assert(cur.last() == deep[h - 1]);
                assert(deep[h - 1] == content_lines@[h - 1]@);
                assert(cur.drop_last() =~= prev);
            }
            h -= 1;
        }
        proof {
            let cur = before.subrange(0, h as int);
            if h == 0 {
                assert(cur.len() == 0);
            } else {
                assert(cur.last() == deep[h - 1]);
                assert(deep[h - 1] == content_lines@[h - 1]@);
            }
            assert(head_keep_start(before, marker_size as nat) == h as int);
        }
        let base = if before_len > ctx {
            before_len - ctx
        } else {
            0
        };
        let ws = if base > h {
            base
        } else {
            h
        };
        let head = join_range(content_lines, ws, before_len);
        proof {
            assert(before.subrange(ws as int, before.len() as int) =~= deep.subrange(
                ws as int,
                before_len as int,
            ));
        }
        let nr_head = before_len - ws;

        let after_start = start_line - 1 + conflict_len;
        let ghost after = deep.subrange(after_start as int, deep.len() as int);
        proof {
            lemma_first_marker(deep, after_start as int, MarkerKind::Local, marker_size as nat);
            lemma_first_marker_shift(deep, after_start as int, MarkerKind::Local,
            marker_size as nat);
        }
        let t = match find_marker(content_lines, after_start, MarkerKind::Local, marker_size) {
            Some(i) => i - after_start,
            None => n - after_start,
        };
        let tl = if t < ctx {
            t
        } else {
            ctx
        };
        let tail = join_range(content_lines, after_start, after_start + tl);
        proof {
            assert(after.subrange(0, tl as int) =~= deep.subrange(
                after_start as int,
                after_start + tl,
            ));
        }
        (nr_head, tl, head, tail)
    }

    /// Structural parse of one region: find the five marker lines by their
    /// first occurrence, reject nested markers and violated ordering, and
    /// extract the three sections and the context windows.
    ///
    /// Errors come exactly as [`parse_region_spec`] assigns them: a nested
    /// marker anywhere in the region is corruption; a missing marker is
    /// reported by kind; markers present but not in the order
    /// local < base < remote < resolution <= end are a structural error
    /// carrying the positions found.
    pub fn parse_conflict_text(
        &self,
        conflict_text: &str,
        content: &str,
        start_line: usize,
        file_path: &str,
        marker_size: usize,
    ) -> (r: Result<Conflict, ResolveError>)
        requires
            1 <= marker_size < usize::MAX,
            1 <= start_line,
            start_line - 1 + line_split(conflict_text@).len() <= line_split(content@).len(),
        ensures
            ({
                let spec_r = parse_region_spec(
                    conflict_text@,
                    content@,
                    start_line as int,
                    file_path@,
                    marker_size as nat,
                    self.context_lines.code_context_lines as int,
                );
                match r {
                    Ok(c) => spec_r == Ok::<ConflictView, ResolveError>(c@),
                    Err(e) => spec_r == Err::<ConflictView, ResolveError>(e),
                }
            }),
    {
        let lines = split_lines(conflict_text);
        let ghost lv = lines.deep_view();
        match find_nested(&lines, 0, marker_size) {
            Some(_) => {
                return Err(ResolveError::NestedMarkers);
            },
            None => {},
        }
        let l = match find_marker(&lines, 0, MarkerKind::Local, marker_size) {
            Some(i) => i,
            None => {
                return Err(ResolveError::MissingLocalMarker);
            },
        };
        let b = match find_marker(&lines, 0, MarkerKind::Base, marker_size) {
            Some(i) => i,
            None => {
                return Err(ResolveError::MissingBaseMarker);
            },
        };
        let rm = match find_marker(&lines, 0, MarkerKind::Remote, marker_size) {
            Some(i) => i,
            None => {
                return Err(ResolveError::MissingRemoteMarker);
            },
        };
        let e = match find_marker(&lines, 0, MarkerKind::End, marker_size) {
            Some(i) => i,
            None => {
                return Err(ResolveError::MissingEndMarker);
            },
        };
        let a = match find_marker(&lines, 0, MarkerKind::Ai, marker_size) {
            Some(i) => i,
            None => e,
        };
        if e < a || a <= rm || rm <= b || b <= l {
            return Err(
                ResolveError::InvalidMarkerOrder {
                    local_start: l,
                    base_start: b,
                    remote_start: rm,
                    ai_start: a,
                    remote_end: e,
                },
            );
        }
        proof {
            lemma_first_marker(lv, 0, MarkerKind::Local, marker_size as nat);
            lemma_first_marker(lv, 0, MarkerKind::Base, marker_size as nat);
            lemma_first_marker(lv, 0, MarkerKind::Remote, marker_size as nat);
            lemma_first_marker(lv, 0, MarkerKind::End, marker_size as nat);
            lemma_first_marker(lv, 0, MarkerKind::Ai, marker_size as nat);
        }
        let local = join_range(&lines, l + 1, b);
        let base = join_range(&lines, b + 1, rm);
        let remote = join_range(&lines, rm + 1, a);
        let content_lines = split_lines(content);
        let g = self.gen_context(lines.len(), &content_lines, start_line, marker_size);
        let c = Conflict {
            file_path: String::from_str(file_path),
            local,
            base,
            remote,
            head_context: g.2,
            tail_context: g.3,
            start_line,
            remote_end: e,
            nr_head_context_lines: g.0,
            nr_tail_context_lines: g.1,
            marker_size,
        };
        proof {
            let spec_r = parse_region_spec(
                conflict_text@,
                content@,
                start_line as int,
                file_path@,
                marker_size as nat,
                self.context_lines.code_context_lines as int,
            );
            assert(spec_r is Ok && spec_r->Ok_0 =~= c@);
        }
        Ok(c)
    }
}

/// What the structural parser yields for a region: the error taxonomy in the
/// order the markers are sought, or the parsed conflict.
pub open spec fn parse_region_spec(
    region: Seq<char>,
    content: Seq<char>,
    start_line: int,
    file_path: Seq<char>,
    w: nat,
    ctx: int,
) -> Result<ConflictView, ResolveError> {
    let lines = line_split(region);
    if first_nested(lines, 0, w) is Some {
        Err(ResolveError::NestedMarkers)
    } else {
        match first_marker(lines, 0, MarkerKind::Local, w) {
            None => Err(ResolveError::MissingLocalMarker),
            Some(l) => match first_marker(lines, 0, MarkerKind::Base, w) {
                None => Err(ResolveError::MissingBaseMarker),
                Some(b) => match first_marker(lines, 0, MarkerKind::Remote, w) {
                    None => Err(ResolveError::MissingRemoteMarker),
                    Some(rm) => match first_marker(lines, 0, MarkerKind::End, w) {
                        None => Err(ResolveError::MissingEndMarker),
                        Some(e) => {
                            let a = match first_marker(lines, 0, MarkerKind::Ai, w) {
                                Some(i) => i,
                                None => e,
                            };
                            if e < a || a <= rm || rm <= b || b <= l {
                                Err(
                                    ResolveError::InvalidMarkerOrder {
                                        local_start: l as usize,
                                        base_start: b as usize,
                                        remote_start: rm as usize,
                                        ai_start: a as usize,
                                        remote_end: e as usize,
                                    },
                                )
                            } else {
                                let g = gen_context_spec(
                                    line_split(content),
                                    lines.len() as int,
                                    start_line,
                                    w,
                                    ctx,
                                );
                                Ok(
                                    ConflictView {
                                        file_path,
                                        local: lines.subrange(l + 1, b).flatten(),
                                        base: lines.subrange(b + 1, rm).flatten(),
                                        remote: lines.subrange(rm + 1, a).flatten(),
                                        head_context: g.2,
                                        tail_context: g.3,
                                        start_line,
                                        remote_end: e,
                                        nr_head_context_lines: g.0,
                                        nr_tail_context_lines: g.1,
                                        marker_size: w as int,
                                    },
                                )
                            }
                        },
                    },
                },
            },
        }
    }
}

/// The regions the scanner matches: from each local marker line, the first
/// base marker after it, the first remote separator after that, and the
/// first newline-terminated end marker after that; scanning resumes past the
/// region. A local line with no completion is stepped over.
pub open spec fn scan_regions(lines: Seq<Seq<char>>, from: int, w: nat) -> Seq<(int, int)>
    decreases lines.len() - from,
    via scan_regions_dec
{
    if from < 0 || from >= lines.len() {
        Seq::empty()
    } else if marker_line_matches(lines[from], MarkerKind::Local, w) {
        match first_marker(lines, from + 1, MarkerKind::Base, w) {
            None => scan_regions(lines, from + 1, w),
            Some(b) => match first_marker(lines, b + 1, MarkerKind::Remote, w) {
                None => scan_regions(lines, from + 1, w),
                Some(rm) => match first_scan_end(lines, rm + 1, w) {
                    None => scan_regions(lines, from + 1, w),
                    Some(e) => seq![(from, e)] + scan_regions(lines, e + 1, w),
                },
            },
        }
    } else {
        scan_regions(lines, from + 1, w)
    }
}

#[via_fn]
proof fn scan_regions_dec(lines: Seq<Seq<char>>, from: int, w: nat) {
    if 0 <= from && from < lines.len() && marker_line_matches(lines[from], MarkerKind::Local, w) {
        lemma_first_marker(lines, from + 1, MarkerKind::Base, w);
        match first_marker(lines, from + 1, MarkerKind::Base, w) {
            Some(b) => {
                lemma_first_marker(lines, b + 1, MarkerKind::Remote, w);
                match first_marker(lines, b + 1, MarkerKind::Remote, w) {
                    Some(rm) => {
                        lemma_first_scan_end(lines, rm + 1, w);
                    },
                    None => {},
                }
            },
            None => {},
        }
    }
}

/// Parsing every matched region in order; the first structural error aborts
/// the scan.
pub open spec fn parse_regions_spec(
    content: Seq<char>,
    regions: Seq<(int, int)>,
    file_path: Seq<char>,
    w: nat,
    ctx: int,
) -> Result<Seq<ConflictView>, ResolveError>
    decreases regions.len(),
{
    if regions.len() == 0 {
        Ok(Seq::empty())
    } else {
        let lines = line_split(content);
        let region = lines.subrange(regions[0].0, regions[0].1 + 1).flatten();
        match parse_region_spec(region, content, regions[0].0 + 1, file_path, w, ctx) {
            Err(e) => Err(e),
            Ok(c) => match parse_regions_spec(content, regions.drop_first(), file_path, w, ctx) {
                Err(e) => Err(e),
                Ok(rest) => Ok(seq![c] + rest),
            },
        }
    }
}

pub open spec fn prepend_ok(
    prefix: Seq<ConflictView>,
    rest: Result<Seq<ConflictView>, ResolveError>,
) -> Result<Seq<ConflictView>, ResolveError> {
    match rest {
        Ok(r) => Ok(prefix + r),
        Err(e) => Err(e),
    }
}

/// What conflict discovery yields for a whole run of files, in input order.
pub open spec fn parse_files_spec(files: Seq<FileInputView>, ctx: int) -> Result<
    Seq<ConflictView>,
    ResolveError,
>
    decreases files.len(),
{
    if files.len() == 0 {
        Ok(Seq::empty())
    } else {
        let f = files[0];
        match parse_regions_spec(
            f.content,
            scan_regions(line_split(f.content), 0, f.marker_size as nat),
            f.path,
            f.marker_size as nat,
            ctx,
        ) {
            Err(e) => Err(e),
            Ok(cs) => match parse_files_spec(files.drop_first(), ctx) {
                Err(e) => Err(e),
                Ok(rest) => Ok(cs + rest),
            },
        }
    }
}

impl GitUtils {
    /// Scans one file's text for conflict regions and parses each; mirrors
    /// matching a region pattern from each local marker line through the
    /// next complete end marker line.
    pub fn parse_conflicts_in_text(
        &self,
        content: &str,
        file_path: &str,
        marker_size: usize,
    ) -> (r: Result<Vec<Conflict>, ResolveError>)
        requires
            1 <= marker_size < usize::MAX,
        ensures
            ({
                let spec_r = parse_regions_spec(
                    content@,
                    scan_regions(line_split(content@), 0, marker_size as nat),
                    file_path@,
                    marker_size as nat,
                    self.context_lines.code_context_lines as int,
                );
                match r {
                    Ok(v) => spec_r == Ok::<Seq<ConflictView>, ResolveError>(v.deep_view()),
                    Err(e) => spec_r == Err::<Seq<ConflictView>, ResolveError>(e),
                }
            }),
    {
        let ghost w = marker_size as nat;
        let ghost ctx = self.context_lines.code_context_lines as int;
        let lines = split_lines(content);
        let ghost lv = lines.deep_view();
        let n = lines.len();
        let mut result: Vec<Conflict> = Vec::new();
        let mut i: usize = 0;
        proof {
            assert(prepend_ok(result.deep_view(), parse_regions_spec(content@, scan_regions(lv,
            0, w), file_path@, w, ctx)) == parse_regions_spec(content@, scan_regions(lv, 0, w),
            file_path@, w, ctx)) by {
                match parse_regions_spec(content@, scan_regions(lv, 0, w), file_path@, w, ctx) {
                    Ok(cs) => {
                        assert(result.deep_view() + cs =~= cs);
                    },
                    Err(_) => {},
                }
            }
        }
        while i < n
            invariant
                i <= n,
                n == lv.len(),
                lv == lines.deep_view(),
                lv == line_split(content@),
                1 <= marker_size < usize::MAX,
                w == marker_size as nat,
                ctx == self.context_lines.code_context_lines as int,
                prepend_ok(result.deep_view(), parse_regions_spec(content@, scan_regions(lv,
                i as int, w), file_path@, w, ctx)) == parse_regions_spec(content@,
                scan_regions(lv, 0, w), file_path@, w, ctx),
            decreases n - i,
        {
            proof {
                assert(lv[i as int] == lines@[i as int]@);
            }
            if !line_matches_marker(lines[i].as_str(), MarkerKind::Local, marker_size) {
                proof {
                    assert(scan_regions(lv, i as int, w) == scan_regions(lv, i + 1, w));
                }
                i += 1;
                continue ;
            }
            let b = match find_marker(&lines, i + 1, MarkerKind::Base, marker_size) {
                Some(x) => x,
                None => {
                    proof {
                        assert(scan_regions(lv, i as int, w) == scan_regions(lv, i + 1, w));
                    }
                    i += 1;
                    continue ;
                },
            };
            proof {
                lemma_first_marker(lv, i + 1, MarkerKind::Base, w);
            }
            let rm = match find_marker(&lines, b + 1, MarkerKind::Remote, marker_size) {
                Some(x) => x,
                None => {
                    proof {
                        assert(scan_regions(lv, i as int, w) == scan_regions(lv, i + 1, w));
                    }
                    i += 1;
                    continue ;
                },
            };
            proof {
                lemma_first_marker(lv, b + 1, MarkerKind::Remote, w);
            }
            let e = match find_scan_end(&lines, rm + 1, marker_size) {
                Some(x) => x,
                None => {
                    proof {
                        assert(scan_regions(lv, i as int, w) == scan_regions(lv, i + 1, w));
                    }
                    i += 1;
                    continue ;
                },
            };
            proof {
                lemma_first_scan_end(lv, rm + 1, w);
                assert(scan_regions(lv, i as int, w) == seq![(i as int, e as int)]
                    + scan_regions(lv, e + 1, w));
            }
            let region = join_range(&lines, i, e + 1);
            let ghost region_lines = lv.subrange(i as int, e + 1);
            proof {
                lemma_line_split_props(content@);
                assert forall|k: int|
                    0 <= k < region_lines.len() implies is_terminated_line(
                    #[trigger] region_lines[k],
                ) by {
                    assert(region_lines[k] == lv[i + k]);
                    if i + k < lv.len() - 1 {
                        assert(is_terminated_line(lv[i + k]));
                    } else {
                        assert(i + k == e);
                        assert(scan_end_matches(lv[e as int], w));
                        assert(lv[e as int].len() >= 1);
                    }
                }
                lemma_line_split_roundtrip(region_lines);
                assert(line_split(region@) == region_lines);
            }
            let parsed = self.parse_conflict_text(
                region.as_str(),
                content,
                i + 1,
                file_path,
                marker_size,
            );
            match parsed {
                Ok(c) => {
                    let ghost old_deep = result.deep_view();
                    result.push(c);
                    proof {
                        assert(result.deep_view() =~= old_deep.push(c@));
                        let full = parse_regions_spec(content@, scan_regions(lv, 0, w),
                        file_path@, w, ctx);
                        let here = scan_regions(lv, i as int, w);
                        let next = scan_regions(lv, e + 1, w);
                        assert(here[0] == (i as int, e as int));
                        assert(here.drop_first() =~= next);
                        assert(parse_regions_spec(content@, here, file_path@, w, ctx) == (
                        match parse_regions_spec(content@, next, file_path@, w, ctx) {
                            Err(er) => Err::<Seq<ConflictView>, ResolveError>(er),
                            Ok(rest) => Ok(seq![c@] + rest),
                        }));
                        assert(prepend_ok(result.deep_view(), parse_regions_spec(content@, next,
                        file_path@, w, ctx)) == full) by {
                            match parse_regions_spec(content@, next, file_path@, w, ctx) {
                                Ok(rest) => {
                                    assert(old_deep.push(c@) + rest =~= old_deep + (seq![c@]
                                        + rest));
                                },
                                Err(_) => {},
                            }
                        }
                    }
                    i = e + 1;
                },
                Err(er) => {
                    proof {
                        let here = scan_regions(lv, i as int, w);
                        let next = scan_regions(lv, e + 1, w);
                        assert(here[0] == (i as int, e as int));
                        assert(here.drop_first() =~= next);
                        assert(parse_regions_spec(content@, here, file_path@, w, ctx) == Err::<
                            Seq<ConflictView>,
                            ResolveError,
                        >(er));
                    }
                    return Err(er);
                },
            }
        }
        proof {
            assert(scan_regions(lv, i as int, w) =~= Seq::<(int, int)>::empty());
            assert(parse_regions_spec(content@, scan_regions(lv, i as int, w), file_path@, w, ctx)
                == Ok::<Seq<ConflictView>, ResolveError>(Seq::empty()));
            assert(result.deep_view() + Seq::<ConflictView>::empty() =~= result.deep_view());
        }
        Ok(result)
    }

    /// Discovers every conflict across the supplied files, in file order and
    /// text order within each file; the first structural error aborts the
    /// run.
    pub fn find_conflicts(&self, files: &Vec<FileInput>) -> (r: Result<
        Vec<Conflict>,
        ResolveError,
    >)
        requires
            forall|j: int|
                0 <= j < files@.len() ==> 1 <= (#[trigger] files@[j]).marker_size < usize::MAX,
        ensures
            ({
                let spec_r = parse_files_spec(
                    files.deep_view(),
                    self.context_lines.code_context_lines as int,
                );
                match r {
                    Ok(v) => spec_r == Ok::<Seq<ConflictView>, ResolveError>(v.deep_view()),
                    Err(e) => spec_r == Err::<Seq<ConflictView>, ResolveError>(e),
                }
            }),
    {
        let ghost fv = files.deep_view();
        let ghost ctx = self.context_lines.code_context_lines as int;
        let n = files.len();
        let mut result: Vec<Conflict> = Vec::new();
        let mut i: usize = 0;
        proof {
            assert(fv.skip(0) =~= fv);
            match parse_files_spec(fv, ctx) {
                Ok(cs) => {
                    assert(result.deep_view() + cs =~= cs);
                },
                Err(_) => {},
            }
        }
        while i < n
            invariant
                i <= n,
                n == fv.len(),
                fv == files.deep_view(),
                ctx == self.context_lines.code_context_lines as int,
                forall|j: int|
                    0 <= j < files@.len() ==> 1 <= (#[trigger] files@[j]).marker_size
                        < usize::MAX,
                prepend_ok(result.deep_view(), parse_files_spec(fv.skip(i as int), ctx))
                    == parse_files_spec(fv, ctx),
            decreases n - i,
        {
            let ghost suffix = fv.skip(i as int);
            proof {
                assert(suffix[0] == fv[i as int]);
                assert(fv[i as int] == files@[i as int]@);
                assert(suffix.drop_first() =~= fv.skip(i + 1));
            }
            let file = &files[i];
            let parsed = self.parse_conflicts_in_text(
                file.content.as_str(),
                file.path.as_str(),
                file.marker_size,
            );
            match parsed {
                Ok(mut cs) => {
                    let ghost old_deep = result.deep_view();
                    let ghost cs_deep = cs.deep_view();
                    result.append(&mut cs);
                    proof {
                        assert(result.deep_view() =~= old_deep + cs_deep);
                        assert(prepend_ok(result.deep_view(), parse_files_spec(fv.skip(i + 1),
                        ctx)) == parse_files_spec(fv, ctx)) by {
                            match parse_files_spec(fv.skip(i + 1), ctx) {
                                Ok(rest) => {
                                    assert((old_deep + cs_deep) + rest =~= old_deep + (cs_deep
                                        + rest));
                                },
                                Err(_) => {},
                            }
                        }
                    }
                },
                Err(er) => {
                    proof {
                        assert(parse_files_spec(suffix, ctx) == Err::<
                            Seq<ConflictView>,
                            ResolveError,
                        >(er));
                    }
                    return Err(er);
                },
            }
            i += 1;
        }
        proof {
            assert(fv.skip(i as int) =~= Seq::<FileInputView>::empty());
            assert(parse_files_spec(fv.skip(i as int), ctx) == Ok::<
                Seq<ConflictView>,
                ResolveError,
            >(Seq::empty()));
            assert(result.deep_view() + Seq::<ConflictView>::empty() =~= result.deep_view());
        }
        Ok(result)
    }
}


/// A marker search resolves to a known position: the first match.
pub proof fn lemma_first_marker_at(
    lines: Seq<Seq<char>>,
    from: int,
    k: MarkerKind,
    w: nat,
    at: int,
)
    requires
        0 <= from <= at < lines.len(),
        marker_line_matches(lines[at], k, w),
        forall|j: int| from <= j < at ==> !marker_line_matches(lines[j], k, w),
    ensures
        first_marker(lines, from, k, w) == Some(at),
    decreases at - from,
{
    if from < at {
        lemma_first_marker_at(lines, from + 1, k, w, at);
    }
}

/// Corruption is always rejected: a region one of whose lines begins with
/// more than `w` repetitions of a marker character never parses, whatever
/// else the region holds.
pub proof fn lemma_nested_marker_rejected(
    region: Seq<char>,
    content: Seq<char>,
    start_line: int,
    file_path: Seq<char>,
    w: nat,
    ctx: int,
    i: int,
)
    requires
        0 <= i < line_split(region).len(),
        has_nested_marker(line_split(region)[i], w),
    ensures
        parse_region_spec(region, content, start_line, file_path, w, ctx) == Err::<
            ConflictView,
            ResolveError,
        >(ResolveError::NestedMarkers),
{
    let lines = line_split(region);
    lemma_first_nested(lines, 0, w);
    if first_nested(lines, 0, w) is None {
        assert(!has_nested_marker(lines[i], w));
    }
}

/// A head context window never reaches back to or across an earlier
/// conflict's end-marker line: every line the window keeps stands strictly
/// after any end-marker line among the lines before the region.
pub proof fn lemma_head_context_stays_after_end(
    content_lines: Seq<Seq<char>>,
    conflict_len: int,
    start_line: int,
    w: nat,
    ctx: int,
    e: int,
)
    requires
        1 <= start_line,
        start_line - 1 <= content_lines.len(),
        0 <= e < start_line - 1,
        marker_line_matches(content_lines[e], MarkerKind::End, w),
    ensures
        ({
            let g = gen_context_spec(content_lines, conflict_len, start_line, w, ctx);
            let window_start = start_line - 1 - g.0;
            window_start > e && (forall|j: int|
                window_start <= j < start_line - 1 ==> !marker_line_matches(
                    content_lines[j],
                    MarkerKind::End,
                    w,
                ))
        }),
{
    let before = content_lines.subrange(0, start_line - 1);
    lemma_head_keep_start(before, w);
    let h = head_keep_start(before, w);
    assert(before[e] == content_lines[e]);
    assert(e < h);
    let g = gen_context_spec(content_lines, conflict_len, start_line, w, ctx);
    let ws = if before.len() - ctx > h {
        before.len() - ctx
    } else {
        h
    };
    assert(g.0 == before.len() - ws);
    assert forall|j: int|
        start_line - 1 - g.0 <= j < start_line - 1 implies !marker_line_matches(
        content_lines[j],
        MarkerKind::End,
        w,
    ) by {
        assert(before[j] == content_lines[j]);
    }
}

/// A tail context window never runs into the next conflict: no line it keeps
/// is a local marker line.
pub proof fn lemma_tail_context_stops_at_local(
    content_lines: Seq<Seq<char>>,
    conflict_len: int,
    start_line: int,
    w: nat,
    ctx: int,
)
    requires
        1 <= start_line,
        0 <= conflict_len,
        start_line - 1 + conflict_len <= content_lines.len(),
    ensures
        ({
            let g = gen_context_spec(content_lines, conflict_len, start_line, w, ctx);
            forall|j: int|
                0 <= j < g.1 ==> !marker_line_matches(
                    #[trigger] content_lines[start_line - 1 + conflict_len + j],
                    MarkerKind::Local,
                    w,
                )
        }),
{
    let after = content_lines.subrange(start_line - 1 + conflict_len, content_lines.len() as int);
    lemma_first_marker(after, 0, MarkerKind::Local, w);
    let g = gen_context_spec(content_lines, conflict_len, start_line, w, ctx);
    assert forall|j: int|
        0 <= j < g.1 implies !marker_line_matches(
        #[trigger] content_lines[start_line - 1 + conflict_len + j],
        MarkerKind::Local,
        w,
    ) by {
        assert(after[j] == content_lines[start_line - 1 + conflict_len + j]);
    }
}


/// A line that may stand inside a section of a well-formed region: a
/// complete line that looks like no marker and holds no nested marker run.
pub open spec fn section_line(l: Seq<char>, w: nat) -> bool {
    is_terminated_line(l) && !marker_line_matches(l, MarkerKind::Base, w) && !marker_line_matches(
        l,
        MarkerKind::Remote,
        w,
    ) && !marker_line_matches(l, MarkerKind::End, w) && !marker_line_matches(
        l,
        MarkerKind::Ai,
        w,
    ) && !has_nested_marker(l, w)
}

/// A labeled marker line starts with its own character alone: it carries no
/// other marker's run and no nested run.
pub proof fn lemma_labeled_line_shape(l: Seq<char>, c: char, w: nat)
    requires
        w >= 1,
        c != ' ',
        is_labeled_marker_line(l, c, w),
    ensures
        forall|c2: char| c2 != c ==> !has_run_prefix(l, c2, w),
        !has_nested_marker(l, w),
{
    assert(l[0] == c);
    assert forall|c2: char| c2 != c implies !has_run_prefix(l, c2, w) by {
        if has_run_prefix(l, c2, w) {
            assert(l[0] == c2);
        }
    }
    if has_nested_marker(l, w) {
        let c2 = choose|c2: char|
            crate::markers::is_conflict_marker_char(c2) && has_run_prefix(l, c2, w + 1);
        assert(l[0] == c2);
        assert(l[w as int] == c2);
        assert(l[w as int] == ' ');
    }
}

/// For every marker width `w >= 1` and well-formed region — a labeled local
/// marker line, the local section, a labeled base marker line, the base
/// section, the bare remote separator, the remote section, and a labeled end
/// marker line, where no section line looks like a marker line — structural
/// parsing recovers the three section texts byte for byte, along with the
/// end marker's offset.
pub proof fn lemma_parse_recovers_sections(
    local_line: Seq<char>,
    local: Seq<Seq<char>>,
    base_line: Seq<char>,
    base: Seq<Seq<char>>,
    sep_line: Seq<char>,
    remote: Seq<Seq<char>>,
    end_line: Seq<char>,
    content: Seq<char>,
    start_line: int,
    file_path: Seq<char>,
    w: nat,
    ctx: int,
)
    requires
        w >= 1,
        is_labeled_marker_line(local_line, '<', w),
        is_terminated_line(local_line),
        is_labeled_marker_line(base_line, '|', w),
        is_terminated_line(base_line),
        marker_line_matches(sep_line, MarkerKind::Remote, w),
        is_terminated_line(sep_line),
        is_labeled_marker_line(end_line, '>', w),
        is_terminated_line(end_line),
        forall|i: int| 0 <= i < local.len() ==> section_line(#[trigger] local[i], w),
        forall|i: int| 0 <= i < base.len() ==> section_line(#[trigger] base[i], w),
        forall|i: int| 0 <= i < remote.len() ==> section_line(#[trigger] remote[i], w),
    ensures
        ({
            let lines = seq![local_line] + local + seq![base_line] + base + seq![sep_line]
                + remote + seq![end_line];
            let region = lines.flatten();
            let r = parse_region_spec(region, content, start_line, file_path, w, ctx);
            r is Ok && r->Ok_0.local == local.flatten() && r->Ok_0.base == base.flatten()
                && r->Ok_0.remote == remote.flatten() && r->Ok_0.start_line == start_line
                && r->Ok_0.remote_end == lines.len() - 1 && r->Ok_0.file_path == file_path
                && r->Ok_0.marker_size == w as int
        }),
{
    let lines = seq![local_line] + local + seq![base_line] + base + seq![sep_line] + remote
        + seq![end_line];
    let region = lines.flatten();
    let bi = 1 + local.len() as int;
    let ri = bi + 1 + base.len() as int;
    let ei = ri + 1 + remote.len() as int;
    assert(lines.len() == ei + 1);
    assert(lines[0] == local_line);
    assert(forall|i: int| 0 <= i < local.len() ==> lines[1 + i] == local[i]);
    assert(lines[bi] == base_line);
    assert(forall|i: int| 0 <= i < base.len() ==> lines[bi + 1 + i] == base[i]);
    assert(lines[ri] == sep_line);
    assert(forall|i: int| 0 <= i < remote.len() ==> lines[ri + 1 + i] == remote[i]);
    assert(lines[ei] == end_line);

    assert forall|i: int| 0 <= i < lines.len() implies is_terminated_line(
        #[trigger] lines[i],
    ) by {
        if 1 <= i < bi {
            assert(lines[i] == local[i - 1]);
        } else if bi + 1 <= i < ri {
            assert(lines[i] == base[i - bi - 1]);
        } else if ri + 1 <= i < ei {
            assert(lines[i] == remote[i - ri - 1]);
        }
    }
    lemma_line_split_roundtrip(lines);
    assert(line_split(region) == lines);

    lemma_labeled_line_shape(local_line, '<', w);
    lemma_labeled_line_shape(base_line, '|', w);
    lemma_labeled_line_shape(end_line, '>', w);
    // the separator's shape: its run is '=' alone, and it is not nested
    assert(sep_line[0] == '=');
    assert forall|c2: char| c2 != '=' implies !has_run_prefix(sep_line, c2, w) by {
        if has_run_prefix(sep_line, c2, w) {
            assert(sep_line[0] == c2);
        }
    }
    assert(!has_nested_marker(sep_line, w)) by {
        if has_nested_marker(sep_line, w) {
            let c2 = choose|c2: char|
                crate::markers::is_conflict_marker_char(c2) && has_run_prefix(sep_line, c2, w + 1);
            assert(sep_line[0] == c2);
            assert(sep_line[w as int] == c2);
            assert(sep_line[w as int] == '\n');
        }
    }

    // first local marker: line 0
    lemma_first_marker_at(lines, 0, MarkerKind::Local, w, 0);
    // first base marker: the base marker line
    assert forall|j: int| 0 <= j < bi implies !marker_line_matches(
        lines[j],
        MarkerKind::Base,
        w,
    ) by {
        if j == 0 {
            assert(!has_run_prefix(local_line, '|', w));
        } else {
            assert(lines[j] == local[j - 1]);
        }
    }
    lemma_first_marker_at(lines, 0, MarkerKind::Base, w, bi);
    // first remote separator: the separator line
    assert forall|j: int| 0 <= j < ri implies !marker_line_matches(
        lines[j],
        MarkerKind::Remote,
        w,
    ) by {
        if j == 0 {
            assert(!has_run_prefix(local_line, '=', w));
        } else if j < bi {
            assert(lines[j] == local[j - 1]);
        } else if j == bi {
            assert(!has_run_prefix(base_line, '=', w));
        } else {
            assert(lines[j] == base[j - bi - 1]);
        }
    }
    lemma_first_marker_at(lines, 0, MarkerKind::Remote, w, ri);
    // first end marker: the end marker line
    assert forall|j: int| 0 <= j < ei implies !marker_line_matches(
        lines[j],
        MarkerKind::End,
        w,
    ) by {
        if j == 0 {
            assert(!has_run_prefix(local_line, '>', w));
        } else if j < bi {
            assert(lines[j] == local[j - 1]);
        } else if j == bi {
            assert(!has_run_prefix(base_line, '>', w));
        } else if j < ri {
            assert(lines[j] == base[j - bi - 1]);
        } else if j == ri {
            assert(!has_run_prefix(sep_line, '>', w));
        } else {
            assert(lines[j] == remote[j - ri - 1]);
        }
    }
    lemma_first_marker_at(lines, 0, MarkerKind::End, w, ei);
    // no resolution marker anywhere
    lemma_first_marker(lines, 0, MarkerKind::Ai, w);
    match first_marker(lines, 0, MarkerKind::Ai, w) {
        Some(i) => {
            assert(marker_line_matches(lines[i], MarkerKind::Ai, w));
            if i == 0 {
                assert(!has_run_prefix(local_line, '&', w));
            } else if i < bi {
                assert(lines[i] == local[i - 1]);
            } else if i == bi {
                assert(!has_run_prefix(base_line, '&', w));
            } else if i < ri {
                assert(lines[i] == base[i - bi - 1]);
            } else if i == ri {
                assert(!has_run_prefix(sep_line, '&', w));
            } else if i < ei {
                assert(lines[i] == remote[i - ri - 1]);
            } else {
                assert(!has_run_prefix(end_line, '&', w));
            }
            assert(false);
        },
        None => {},
    }
    // no nested marker anywhere
    lemma_first_nested(lines, 0, w);
    match first_nested(lines, 0, w) {
        Some(i) => {
            assert(has_nested_marker(lines[i], w));
            if i == 0 {
            } else if i < bi {
                assert(lines[i] == local[i - 1]);
            } else if i == bi {
            } else if i < ri {
                assert(lines[i] == base[i - bi - 1]);
            } else if i == ri {
            } else if i < ei {
                assert(lines[i] == remote[i - ri - 1]);
            } else {
            }
            assert(false);
        },
        None => {},
    }
    // the sections come back exactly
    assert(lines.subrange(1, bi) =~= local);
    assert(lines.subrange(bi + 1, ri) =~= base);
    assert(lines.subrange(ri + 1, ei) =~= remote);
}


/// A scan-end search resolves to a known position: the first match.
pub proof fn lemma_first_scan_end_at(lines: Seq<Seq<char>>, from: int, w: nat, at: int)
    requires
        0 <= from <= at < lines.len(),
        scan_end_matches(lines[at], w),
        forall|j: int| from <= j < at ==> !scan_end_matches(lines[j], w),
    ensures
        first_scan_end(lines, from, w) == Some(at),
    decreases at - from,
{
    if from < at {
        lemma_first_scan_end_at(lines, from + 1, w, at);
    }
}

/// The scanner walks over lines that are no local marker.
pub proof fn lemma_scan_skip(lines: Seq<Seq<char>>, j: int, l: int, w: nat)
    requires
        0 <= j <= l,
        forall|x: int| j <= x < l ==> !marker_line_matches(lines[x], MarkerKind::Local, w),
        l <= lines.len(),
    ensures
        scan_regions(lines, j, w) == scan_regions(lines, l, w),
    decreases l - j,
{
    if j < l {
        lemma_scan_skip(lines, j + 1, l, w);
    }
}

} // verus!
