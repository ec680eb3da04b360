//! The reconciler: writing ranked resolutions back into file text, either by
//! annotating each conflict with an attributed resolution block or by
//! collapsing the whole region into the resolved text.

use vstd::prelude::*;

use crate::markers::MarkerKind;
use crate::markers::build_labeled_marker_line;
use crate::markers::is_labeled_marker_line;
use crate::markers::labeled_marker_line;
use crate::markers::line_is_labeled;
use crate::markers::marker_line_matches;
use crate::parser::find_marker;
use crate::parser::first_marker;
use crate::parser::first_scan_end;
use crate::parser::lemma_first_scan_end;
use crate::parser::lemma_first_scan_end_at;
use crate::parser::lemma_scan_skip;
use crate::parser::scan_end_matches;
use crate::parser::scan_regions;
use crate::parser::first_nested;
use crate::parser::lemma_first_marker;
use crate::parser::lemma_first_marker_at;
use crate::parser::lemma_first_nested;
use crate::parser::parse_region_spec;
use crate::parser::section_line;
use crate::parser::lemma_labeled_line_shape;
use crate::strutil::is_terminated_line;
use crate::strutil::lemma_line_split_roundtrip;
use crate::strutil::line_split;
use crate::strutil::push_char;
use crate::strutil::split_lines;
use crate::strutil::str_eq;
use crate::types::Conflict;
use crate::types::ConflictView;
use crate::types::GitUtils;
use crate::types::ResolvedConflict;
use crate::types::ResolvedConflictView;

verus! {

/// One line of resolved text as it is written back: without its terminator —
/// a final newline, or a carriage return and newline — and with a single
/// newline appended.
pub open spec fn strip_line_ending(l: Seq<char>) -> Seq<char> {
    if l.len() > 0 && l.last() == '\n' {
        let m = l.drop_last();
        if m.len() > 0 && m.last() == '\r' {
            m.drop_last()
        } else {
            m
        }
    } else {
        l
    }
}

/// Resolved candidate text split into newline-terminated lines.
pub open spec fn resolved_as_lines(s: Seq<char>) -> Seq<Seq<char>> {
    Seq::new(line_split(s).len(), |i: int| strip_line_ending(line_split(s)[i]).push('\n'))
}

/// Splits resolved text into newline-terminated lines, normalizing carriage
/// returns away.
pub fn resolution_lines(s: &str) -> (r: Vec<String>)
    ensures
        r.deep_view() == resolved_as_lines(s@),
{
    let pieces = split_lines(s);
    let ghost pv = pieces.deep_view();
    let ghost target = resolved_as_lines(s@);
    let n = pieces.len();
    let mut r: Vec<String> = Vec::new();
    let mut i: usize = 0;
    proof {
        assert(r.deep_view() =~= target.subrange(0, 0));
    }
    while i < n
        invariant
            i <= n,
            n == pv.len(),
            pv == pieces.deep_view(),
            pv == line_split(s@),
            target == resolved_as_lines(s@),
            r.deep_view() == target.subrange(0, i as int),
        decreases n - i,
    {
        proof {
            assert(pv[i as int] == pieces@[i as int]@);
        }
        let piece = pieces[i].as_str();
        let ghost p = pv[i as int];
        let ln = piece.unicode_len();
        let mut e = ln;
        if e > 0 && piece.get_char(e - 1) == '\n' {
            e -= 1;
            if e > 0 && piece.get_char(e - 1) == '\r' {
                e -= 1;
            }
        }
        proof {
            if p.len() > 0 && p.last() == '\n' {
                assert(p.drop_last() =~= p.subrange(0, p.len() - 1));
                if p.len() > 1 && p[p.len() - 2] == '\r' {
                    assert(p.drop_last().drop_last() =~= p.subrange(0, p.len() - 2));
                    assert(strip_line_ending(p) =~= p.subrange(0, e as int));
                } else {
                    assert(strip_line_ending(p) =~= p.subrange(0, e as int));
                }
            } else {
                assert(strip_line_ending(p) =~= p.subrange(0, e as int));
            }
        }
        let mut line = String::from_str(piece.substring_char(0, e));
        push_char(&mut line, '\n');
        let ghost old_deep = r.deep_view();
        r.push(line);
        proof {
            assert(r.deep_view() =~= old_deep.push(strip_line_ending(p).push('\n')));
            assert(r.deep_view() =~= target.subrange(0, i + 1));
        }
        i += 1;
    }
    proof {
        assert(target.subrange(0, n as int) =~= target);
    }
    r
}

/// A copy of `lines` with the range `[from, to_excl)` replaced by `repl`.
pub fn replace_range(lines: &Vec<String>, from: usize, to_excl: usize, repl: &Vec<String>) -> (r:
    Vec<String>)
    requires
        from <= to_excl <= lines@.len(),
    ensures
        r.deep_view() == lines.deep_view().subrange(0, from as int) + repl.deep_view()
            + lines.deep_view().subrange(to_excl as int, lines@.len() as int),
{
    let ghost lv = lines.deep_view();
    let ghost rv = repl.deep_view();
    let n = lines.len();
    let rn = repl.len();
    let mut r: Vec<String> = Vec::new();
    let mut i: usize = 0;
    proof {
        assert(r.deep_view() =~= lv.subrange(0, 0));
    }
    while i < from
        invariant
            i <= from,
            from <= to_excl <= n,
            n == lv.len(),
            lv == lines.deep_view(),
            r.deep_view() == lv.subrange(0, i as int),
        decreases from - i,
    {
        let ghost old_deep = r.deep_view();
        r.push(lines[i].clone());
        proof {
            assert(lines@[i as int]@ == lv[i as int]);
            assert(r.deep_view() =~= old_deep.push(lv[i as int]));
            assert(r.deep_view() =~= lv.subrange(0, i + 1));
        }
        i += 1;
    }
    let mut j: usize = 0;
    while j < rn
        invariant
            j <= rn,
            rn == rv.len(),
            rv == repl.deep_view(),
            r.deep_view() == lv.subrange(0, from as int) + rv.subrange(0, j as int),
        decreases rn - j,
    {
        let ghost old_deep = r.deep_view();
        r.push(repl[j].clone());
        proof {
            assert(repl@[j as int]@ == rv[j as int]);
            assert(r.deep_view() =~= old_deep.push(rv[j as int]));
            assert(r.deep_view() =~= lv.subrange(0, from as int) + rv.subrange(0, j + 1));
        }
        j += 1;
    }
    proof {
        assert(rv.subrange(0, rn as int) =~= rv);
    }
    let mut k = to_excl;
    while k < n
        invariant
            to_excl <= k <= n,
            n == lv.len(),
            lv == lines.deep_view(),
            rv == repl.deep_view(),
            r.deep_view() == lv.subrange(0, from as int) + rv + lv.subrange(
                to_excl as int,
                k as int,
            ),
        decreases n - k,
    {
        let ghost old_deep = r.deep_view();
        r.push(lines[k].clone());
        proof {
            assert(lines@[k as int]@ == lv[k as int]);
            assert(r.deep_view() =~= old_deep.push(lv[k as int]));
            assert(r.deep_view() =~= lv.subrange(0, from as int) + rv + lv.subrange(
                to_excl as int,
                k + 1,
            ));
        }
        k += 1;
    }
    r
}

/// What annotating one conflict does to a file's lines: when the line the
/// region's end-marker offset points at still carries an end or resolution
/// marker with a label, the attribution line and the resolved lines are
/// inserted before it; otherwise the file is left alone and the conflict is
/// skipped.
pub open spec fn annotate_spec(
    lines: Seq<Seq<char>>,
    start_line: int,
    remote_end: int,
    w: nat,
    label: Seq<char>,
    resolved: Seq<char>,
) -> (Seq<Seq<char>>, bool) {
    let at = start_line + remote_end - 1;
    if 0 <= at < lines.len() && (is_labeled_marker_line(lines[at], '>', w)
        || is_labeled_marker_line(lines[at], '&', w)) {
        (
            lines.subrange(0, at) + seq![labeled_marker_line('&', w, label)] + resolved_as_lines(
                resolved,
            ) + lines.subrange(at, lines.len() as int),
            true,
        )
    } else {
        (lines, false)
    }
}

impl GitUtils {
    /// Annotates one conflict in place; returns whether the marker check
    /// passed and the block was inserted.
    pub fn annotate_one(
        lines: &mut Vec<String>,
        start_line: usize,
        remote_end: usize,
        marker_size: usize,
        label: &str,
        resolved_version: &str,
    ) -> (applied: bool)
        ensures
            ({
                let spec_r = annotate_spec(
                    old(lines).deep_view(),
                    start_line as int,
                    remote_end as int,
                    marker_size as nat,
                    label@,
                    resolved_version@,
                );
                final(lines).deep_view() == spec_r.0 && applied == spec_r.1
            }),
    {
        let n = lines.len();
        let sum = match start_line.checked_add(remote_end) {
            Some(x) => x,
            None => {
                return false;
            },
        };
        if sum == 0 {
            return false;
        }
        let at = sum - 1;
        if at >= n {
            return false;
        }
        proof {
            assert(lines.deep_view()[at as int] == lines@[at as int]@);
        }
        let hit = line_is_labeled(lines[at].as_str(), '>', marker_size) || line_is_labeled(
            lines[at].as_str(),
            '&',
            marker_size,
        );
        if !hit {
            return false;
        }
        let ai = build_labeled_marker_line('&', marker_size, label);
        let ghost ai_view = ai@;
        let mut repl: Vec<String> = Vec::new();
        repl.push(ai);
        let mut res_lines = resolution_lines(resolved_version);
        let ghost res_deep = res_lines.deep_view();
        repl.append(&mut res_lines);
        proof {
            assert(repl.deep_view() =~= seq![ai_view] + res_deep);
        }
        let new_lines = replace_range(lines, at, at, &repl);
        let ghost old_deep = lines.deep_view();
        *lines = new_lines;
        proof {
            assert(lines.deep_view() =~= old_deep.subrange(0, at as int) + seq![
                labeled_marker_line('&', marker_size as nat, label@),
            ] + resolved_as_lines(resolved_version@) + old_deep.subrange(
                at as int,
                old_deep.len() as int,
            ));
        }
        true
    }
}

/// What the whole annotate pass does: the resolutions are applied from the
/// last to the first, so that an insertion never shifts the lines a
/// not-yet-processed, earlier conflict still points at; only resolutions for
/// the given file touch it. The count is how many passed the marker check.
pub open spec fn annotate_from(
    lines: Seq<Seq<char>>,
    rs: Seq<ResolvedConflictView>,
    labels: Seq<Seq<char>>,
    path: Seq<char>,
    k: int,
) -> (Seq<Seq<char>>, int)
    decreases rs.len() - k,
{
    if k < 0 || k >= rs.len() {
        (lines, 0)
    } else {
        let after = annotate_from(lines, rs, labels, path, k + 1);
        if rs[k].conflict.file_path == path {
            let step = annotate_spec(
                after.0,
                rs[k].conflict.start_line,
                rs[k].conflict.remote_end,
                rs[k].conflict.marker_size as nat,
                labels[k],
                rs[k].resolved_version,
            );
            (
                step.0,
                after.1 + if step.1 {
                    1int
                } else {
                    0int
                },
            )
        } else {
            after
        }
    }
}

impl GitUtils {
    /// Annotate mode for one file: every ranked resolution addressed to
    /// `file_path` is inserted, in descending rank order, each under the
    /// attribution label supplied for it. Returns how many were applied;
    /// the rest failed the marker check and were skipped.
    pub fn apply_resolved_conflicts(
        &self,
        lines: &mut Vec<String>,
        file_path: &str,
        resolved: &Vec<ResolvedConflict>,
        labels: &Vec<String>,
    ) -> (nr_applied: usize)
        requires
            labels@.len() == resolved@.len(),
        ensures
            ({
                let spec_r = annotate_from(
                    old(lines).deep_view(),
                    resolved.deep_view(),
                    labels.deep_view(),
                    file_path@,
                    0,
                );
                final(lines).deep_view() == spec_r.0 && nr_applied == spec_r.1
            }),
    {
        let ghost lines0 = lines.deep_view();
        let ghost rv = resolved.deep_view();
        let ghost lbl = labels.deep_view();
        let n = resolved.len();
        let mut k = n;
        let mut count: usize = 0;
        while k > 0
            invariant
                k <= n,
                n == rv.len(),
                rv == resolved.deep_view(),
                lbl == labels.deep_view(),
                labels@.len() == n,
                lines.deep_view() == annotate_from(lines0, rv, lbl, file_path@, k as int).0,
                count == annotate_from(lines0, rv, lbl, file_path@, k as int).1,
                count <= n - k,
            decreases k,
        {
            let idx = k - 1;
            proof {
                assert(rv[idx as int] == resolved@[idx as int]@);
                assert(lbl[idx as int] == labels@[idx as int]@);
            }
            let rc = &resolved[idx];
            if str_eq(rc.conflict.file_path.as_str(), file_path) {
                let applied = Self::annotate_one(
                    lines,
                    rc.conflict.start_line,
                    rc.conflict.remote_end,
                    rc.conflict.marker_size,
                    labels[idx].as_str(),
                    rc.resolved_version.as_str(),
                );
                if applied {
                    count += 1;
                }
            }
            k = idx;
        }
        count
    }
}

/// Conflicts of one file ordered by their starting line.
pub open spec fn conflict_lt(a: ConflictView, b: ConflictView) -> bool {
    a.start_line < b.start_line
}

pub open spec fn insert_sorted_c(sorted: Seq<ConflictView>, x: ConflictView) -> Seq<ConflictView>
    decreases sorted.len(),
{
    if sorted.len() > 0 && conflict_lt(x, sorted.last()) {
        insert_sorted_c(sorted.drop_last(), x).push(sorted.last())
    } else {
        sorted.push(x)
    }
}

pub open spec fn isort_c(s: Seq<ConflictView>) -> Seq<ConflictView>
    decreases s.len(),
{
    if s.len() == 0 {
        Seq::empty()
    } else {
        insert_sorted_c(isort_c(s.drop_last()), s.last())
    }
}

proof fn lemma_insert_sorted_c_at(sorted: Seq<ConflictView>, x: ConflictView, j: int)
    requires
        0 <= j <= sorted.len(),
        forall|p: int| j <= p < sorted.len() ==> conflict_lt(x, #[trigger] sorted[p]),
        j > 0 ==> !conflict_lt(x, sorted[j - 1]),
    ensures
        insert_sorted_c(sorted, x) =~= sorted.subrange(0, j) + seq![x] + sorted.subrange(
            j,
            sorted.len() as int,
        ),
    decreases sorted.len(),
{
    if sorted.len() > 0 && conflict_lt(x, sorted.last()) {
        assert(j < sorted.len());
        lemma_insert_sorted_c_at(sorted.drop_last(), x, j);
        assert(sorted.drop_last().subrange(0, j) =~= sorted.subrange(0, j));
        assert(sorted.drop_last().subrange(j, sorted.len() - 1) =~= sorted.subrange(
            j,
            sorted.len() - 1,
        ));
    } else {
        if sorted.len() > 0 {
            assert(j == sorted.len());
        }
        assert(sorted.subrange(0, sorted.len() as int) =~= sorted);
    }
}

/// A copy of the conflicts sorted by starting line, stably.
pub fn sort_conflicts(cs: &Vec<Conflict>) -> (r: Vec<Conflict>)
    ensures
        r.deep_view() == isort_c(cs.deep_view()),
{
    let ghost cv = cs.deep_view();
    let n = cs.len();
    let mut out: Vec<Conflict> = Vec::new();
    proof {
        assert(cv.subrange(0, 0) =~= Seq::<ConflictView>::empty());
        assert(out.deep_view() =~= isort_c(cv.subrange(0, 0)));
    }
    for idx in 0..n
        invariant
            n == cs@.len(),
            cv == cs.deep_view(),
            out.deep_view() =~= isort_c(cv.subrange(0, idx as int)),
            out@.len() == idx,
    {
        let x = cs[idx].clone();
        proof {
            assert(x@ == cv[idx as int]);
        }
        let mut at = out.len();
        while at > 0 && x.start_line < out[at - 1].start_line
            invariant
                at <= out@.len(),
                out.deep_view() =~= isort_c(cv.subrange(0, idx as int)),
                x@ == cv[idx as int],
                forall|p: int|
                    at <= p < out@.len() ==> conflict_lt(x@, #[trigger] out.deep_view()[p]),
            decreases at,
        {
            proof {
                assert(out.deep_view()[at - 1] == out@[at - 1]@);
            }
            at -= 1;
        }
        proof {
            if at > 0 {
                assert(out.deep_view()[at - 1] == out@[at - 1]@);
            }
            lemma_insert_sorted_c_at(out.deep_view(), x@, at as int);
            assert(cv.subrange(0, idx + 1).drop_last() =~= cv.subrange(0, idx as int));
            assert(cv.subrange(0, idx + 1).last() == cv[idx as int]);
        }
        let ghost old_out = out.deep_view();
        let ghost old_vec = out@;
        out.insert(at, x);
        proof {
            assert forall|p: int| 0 <= p < out@.len() implies out.deep_view()[p] == (
            old_out.subrange(0, at as int) + seq![cv[idx as int]] + old_out.subrange(
                at as int,
                old_out.len() as int,
            ))[p] by {
                if p < at {
                    assert(out@[p] == old_vec[p]);
                } else if p > at {
                    assert(out@[p] == old_vec[p - 1]);
                }
            }
            assert(out.deep_view() =~= old_out.subrange(0, at as int) + seq![cv[idx as int]]
                + old_out.subrange(at as int, old_out.len() as int));
            assert(out.deep_view() =~= insert_sorted_c(old_out, cv[idx as int]));
        }
    }
    proof {
        assert(cv.subrange(0, n as int) =~= cv);
    }
    out
}

/// First ranked resolution whose conflict is structurally the given one.
pub open spec fn first_match(rs: Seq<ResolvedConflictView>, c: ConflictView, from: int) -> Option<
    int,
>
    decreases rs.len() - from,
{
    if from < 0 || from >= rs.len() {
        None
    } else if rs[from].conflict == c {
        Some(from)
    } else {
        first_match(rs, c, from + 1)
    }
}

pub proof fn lemma_first_match(rs: Seq<ResolvedConflictView>, c: ConflictView, from: int)
    requires
        0 <= from,
    ensures
        match first_match(rs, c, from) {
            Some(i) => from <= i < rs.len() && rs[i].conflict == c && (forall|j: int|
                from <= j < i ==> rs[j].conflict != c),
            None => forall|j: int| from <= j < rs.len() ==> rs[j].conflict != c,
        },
    decreases rs.len() - from,
{
    if from < rs.len() && rs[from].conflict != c {
        lemma_first_match(rs, c, from + 1);
    }
}

pub fn find_match(resolved: &Vec<ResolvedConflict>, c: &Conflict) -> (r: Option<usize>)
    ensures
        match r {
            Some(m) => first_match(resolved.deep_view(), c@, 0) == Some(m as int),
            None => first_match(resolved.deep_view(), c@, 0) is None,
        },
{
    let n = resolved.len();
    let mut i: usize = 0;
    while i < n
        invariant
            i <= n,
            n == resolved@.len(),
            first_match(resolved.deep_view(), c@, 0) == first_match(
                resolved.deep_view(),
                c@,
                i as int,
            ),
        decreases n - i,
    {
        proof {
            assert(resolved.deep_view()[i as int] == resolved@[i as int]@);
        }
        if resolved[i].conflict.same_as(c) {
            return Some(i);
        }
        i += 1;
    }
    None
}

/// What collapsing one conflict does to a file's lines: the region from the
/// local marker line to the next end-marker line — or that single line when
/// no end marker follows — is replaced by the resolved text.
pub open spec fn collapse_one(
    lines: Seq<Seq<char>>,
    start_line: int,
    w: nat,
    resolved: Seq<char>,
) -> Seq<Seq<char>> {
    let s0 = start_line - 1;
    if 0 <= s0 < lines.len() {
        let e = match first_marker(lines, s0, MarkerKind::End, w) {
            Some(e) => e,
            None => s0,
        };
        lines.subrange(0, s0) + resolved_as_lines(resolved) + lines.subrange(
            e + 1,
            lines.len() as int,
        )
    } else {
        lines
    }
}

/// What the whole collapse pass does: the file's conflicts are taken in
/// descending line order; each with a matching ranked resolution is replaced
/// by its text, and any conflict without one raises the unresolved flag.
pub open spec fn vibe_from(
    lines: Seq<Seq<char>>,
    sorted: Seq<ConflictView>,
    rs: Seq<ResolvedConflictView>,
    k: int,
) -> (Seq<Seq<char>>, bool)
    decreases sorted.len() - k,
{
    if k < 0 || k >= sorted.len() {
        (lines, false)
    } else {
        let after = vibe_from(lines, sorted, rs, k + 1);
        match first_match(rs, sorted[k], 0) {
            None => (after.0, true),
            Some(m) => (
                collapse_one(
                    after.0,
                    sorted[k].start_line,
                    sorted[k].marker_size as nat,
                    rs[m].resolved_version,
                ),
                after.1,
            ),
        }
    }
}

impl GitUtils {
    /// Collapse mode for one file: each of the file's conflicts, in
    /// descending line order, is fully replaced by its matching ranked
    /// resolution. Returns whether any conflict had no matching resolution;
    /// callers withhold staging while that flag is set.
    pub fn apply_vibe_resolution(
        &self,
        lines: &mut Vec<String>,
        file_conflicts: &Vec<Conflict>,
        resolved: &Vec<ResolvedConflict>,
    ) -> (unresolved: bool)
        ensures
            ({
                let spec_r = vibe_from(
                    old(lines).deep_view(),
                    isort_c(file_conflicts.deep_view()),
                    resolved.deep_view(),
                    0,
                );
                final(lines).deep_view() == spec_r.0 && unresolved == spec_r.1
            }),
    {
        let ghost lines0 = lines.deep_view();
        let ghost rv = resolved.deep_view();
        let sorted = sort_conflicts(file_conflicts);
        let ghost sv = sorted.deep_view();
        let n = sorted.len();
        let mut k = n;
        let mut unresolved = false;
        while k > 0
            invariant
                k <= n,
                n == sv.len(),
                sv == sorted.deep_view(),
                sv == isort_c(file_conflicts.deep_view()),
                rv == resolved.deep_view(),
                lines.deep_view() == vibe_from(lines0, sv, rv, k as int).0,
                unresolved == vibe_from(lines0, sv, rv, k as int).1,
            decreases k,
        {
            let idx = k - 1;
            proof {
                assert(sv[idx as int] == sorted@[idx as int]@);
            }
            let c = &sorted[idx];
            match find_match(resolved, c) {
                None => {
                    unresolved = true;
                },
                Some(m) => {
                    proof {
                        lemma_first_match(rv, sv[idx as int], 0);
                        assert(rv[m as int] == resolved@[m as int]@);
                    }
                    let s0 = c.start_line;
                    if s0 >= 1 && s0 - 1 < lines.len() {
                        let start0 = s0 - 1;
                        proof {
                            lemma_first_marker(
                                lines.deep_view(),
                                start0 as int,
                                MarkerKind::End,
                                c.marker_size as nat,
                            );
                        }
                        let e = match find_marker(lines, start0, MarkerKind::End, c.marker_size) {
                            Some(e) => e,
                            None => start0,
                        };
                        let repl = resolution_lines(resolved[m].resolved_version.as_str());
                        let new_lines = replace_range(lines, start0, e + 1, &repl);
                        *lines = new_lines;
                    }
                },
            }
            k = idx;
        }
        unresolved
    }
}


/// Round trip of annotate mode, for one region: after the attribution line
/// and the resolved lines are inserted at the region's end-marker offset —
/// what applying one annotation does to the region — re-parsing recovers the
/// original local, base and remote texts unchanged, the end offset grows by
/// the inserted block, and the line at the old end offset is the inserted
/// resolution marker line.
pub proof fn lemma_annotate_round_trip(
    region: Seq<char>,
    content: Seq<char>,
    start_line: int,
    file_path: Seq<char>,
    w: nat,
    ctx: int,
    label: Seq<char>,
    resolved: Seq<char>,
    content2: Seq<char>,
    start_line2: int,
)
    requires
        w >= 1,
        parse_region_spec(region, content, start_line, file_path, w, ctx) is Ok,
        forall|i: int|
            0 <= i < line_split(region).len() ==> is_terminated_line(
                #[trigger] line_split(region)[i],
            ),
        forall|i: int|
            0 <= i < resolved_as_lines(resolved).len() ==> section_line(
                #[trigger] resolved_as_lines(resolved)[i],
                w,
            ),
        forall|j: int| 0 <= j < label.len() ==> label[j] != '\n',
    ensures
        ({
            let c = parse_region_spec(region, content, start_line, file_path, w, ctx)->Ok_0;
            let lines = line_split(region);
            let ai = labeled_marker_line('&', w, label);
            let res = resolved_as_lines(resolved);
            let new_lines = lines.subrange(0, c.remote_end) + seq![ai] + res + lines.subrange(
                c.remote_end,
                lines.len() as int,
            );
            let r2 = parse_region_spec(
                new_lines.flatten(),
                content2,
                start_line2,
                file_path,
                w,
                ctx,
            );
            r2 is Ok && r2->Ok_0.local == c.local && r2->Ok_0.base == c.base && r2->Ok_0.remote
                == c.remote && r2->Ok_0.remote_end == c.remote_end + 1 + res.len()
                && new_lines[c.remote_end] == ai
        }),
{
    let c = parse_region_spec(region, content, start_line, file_path, w, ctx)->Ok_0;
    let lines = line_split(region);
    let ai = labeled_marker_line('&', w, label);
    let res = resolved_as_lines(resolved);

    // name the five positions of the original parse
    let l = first_marker(lines, 0, MarkerKind::Local, w)->Some_0;
    let b = first_marker(lines, 0, MarkerKind::Base, w)->Some_0;
    let rm = first_marker(lines, 0, MarkerKind::Remote, w)->Some_0;
    let e = first_marker(lines, 0, MarkerKind::End, w)->Some_0;
    assert(first_marker(lines, 0, MarkerKind::Local, w) is Some);
    assert(first_marker(lines, 0, MarkerKind::Base, w) is Some);
    assert(first_marker(lines, 0, MarkerKind::Remote, w) is Some);
    assert(first_marker(lines, 0, MarkerKind::End, w) is Some);
    let a = match first_marker(lines, 0, MarkerKind::Ai, w) {
        Some(i) => i,
        None => e,
    };
    assert(!(e < a || a <= rm || rm <= b || b <= l));
    assert(c.remote_end == e);
    assert(c.local == lines.subrange(l + 1, b).flatten());
    assert(c.base == lines.subrange(b + 1, rm).flatten());
    assert(c.remote == lines.subrange(rm + 1, a).flatten());
    lemma_first_marker(lines, 0, MarkerKind::Local, w);
    lemma_first_marker(lines, 0, MarkerKind::Base, w);
    lemma_first_marker(lines, 0, MarkerKind::Remote, w);
    lemma_first_marker(lines, 0, MarkerKind::End, w);
    lemma_first_marker(lines, 0, MarkerKind::Ai, w);
    lemma_first_nested(lines, 0, w);
    assert(first_nested(lines, 0, w) is None);

    // the inserted attribution line
    crate::markers::lemma_labeled_marker_line_matches('&', w, label);
    lemma_labeled_line_shape(ai, '&', w);
    assert(is_terminated_line(ai)) by {
        assert(ai.len() == w + 2 + label.len());
        assert(ai.last() == '\n');
        assert forall|j: int| 0 <= j < ai.len() - 1 implies ai[j] != '\n' by {
            if j < w {
                assert(ai[j] == '&');
            } else if j == w {
                assert(ai[j] == ' ');
            } else {
                assert(ai[j] == label[j - w - 1]);
            }
        }
    }

    let new_lines = lines.subrange(0, e) + seq![ai] + res + lines.subrange(e, lines.len() as int);
    let rn = res.len() as int;
    let en = e + 1 + rn;
    assert(new_lines.len() == lines.len() + 1 + rn);
    assert(forall|j: int| 0 <= j < e ==> new_lines[j] == lines[j]);
    assert(new_lines[e] == ai);
    assert(forall|j: int| 0 <= j < rn ==> new_lines[e + 1 + j] == res[j]);
    assert(forall|j: int| e <= j < lines.len() ==> new_lines[j + 1 + rn] == lines[j]);
    assert(new_lines[en] == lines[e]);

    assert forall|i: int| 0 <= i < new_lines.len() implies is_terminated_line(
        #[trigger] new_lines[i],
    ) by {
        if i < e {
            assert(new_lines[i] == lines[i]);
        } else if i == e {
        } else if i < en {
            assert(new_lines[i] == res[i - e - 1]);
        } else {
            assert(new_lines[i] == lines[i - 1 - rn]);
        }
    }
    lemma_line_split_roundtrip(new_lines);
    assert(line_split(new_lines.flatten()) == new_lines);

    // the firsts of the new region
    lemma_first_marker_at(new_lines, 0, MarkerKind::Local, w, l);
    assert forall|j: int| 0 <= j < b implies !marker_line_matches(
        new_lines[j],
        MarkerKind::Base,
        w,
    ) by {
        assert(new_lines[j] == lines[j]);
    }
    lemma_first_marker_at(new_lines, 0, MarkerKind::Base, w, b);
    assert forall|j: int| 0 <= j < rm implies !marker_line_matches(
        new_lines[j],
        MarkerKind::Remote,
        w,
    ) by {
        assert(new_lines[j] == lines[j]);
    }
    lemma_first_marker_at(new_lines, 0, MarkerKind::Remote, w, rm);
    assert forall|j: int| 0 <= j < en implies !marker_line_matches(
        new_lines[j],
        MarkerKind::End,
        w,
    ) by {
        if j < e {
            assert(new_lines[j] == lines[j]);
        } else if j == e {
            assert(!crate::markers::has_run_prefix(ai, '>', w));
        } else {
            assert(new_lines[j] == res[j - e - 1]);
        }
    }
    assert(marker_line_matches(new_lines[en], MarkerKind::End, w));
    lemma_first_marker_at(new_lines, 0, MarkerKind::End, w, en);
    // the first resolution marker of the new region
    if first_marker(lines, 0, MarkerKind::Ai, w) is Some {
        assert(marker_line_matches(lines[a], MarkerKind::Ai, w));
        assert(lines[a][0] == '&');
        assert(marker_line_matches(lines[e], MarkerKind::End, w));
        assert(lines[e][0] == '>');
        assert(a < e);
        assert forall|j: int| 0 <= j < a implies !marker_line_matches(
            new_lines[j],
            MarkerKind::Ai,
            w,
        ) by {
            assert(new_lines[j] == lines[j]);
        }
        assert(marker_line_matches(new_lines[a], MarkerKind::Ai, w)) by {
            assert(new_lines[a] == lines[a]);
        }
        lemma_first_marker_at(new_lines, 0, MarkerKind::Ai, w, a);
    } else {
        assert forall|j: int| 0 <= j < e implies !marker_line_matches(
            new_lines[j],
            MarkerKind::Ai,
            w,
        ) by {
            assert(new_lines[j] == lines[j]);
        }
        assert(marker_line_matches(new_lines[e], MarkerKind::Ai, w));
        lemma_first_marker_at(new_lines, 0, MarkerKind::Ai, w, e);
    }
    // no nested marker in the new region
    lemma_first_nested(new_lines, 0, w);
    match first_nested(new_lines, 0, w) {
        Some(i) => {
            if i < e {
                assert(new_lines[i] == lines[i]);
            } else if i == e {
            } else if i < en {
                assert(new_lines[i] == res[i - e - 1]);
            } else {
                assert(new_lines[i] == lines[i - 1 - rn]);
            }
            assert(false);
        },
        None => {},
    }
    // the recovered sections
    assert(new_lines.subrange(l + 1, b) =~= lines.subrange(l + 1, b));
    assert(new_lines.subrange(b + 1, rm) =~= lines.subrange(b + 1, rm));
    assert(new_lines.subrange(rm + 1, a) =~= lines.subrange(rm + 1, a));
}


/// Round trip of annotate mode at the file level, for a file's leading
/// conflict: every line is complete, no stray local marker stands before the
/// region and no end-marker run stands inside it. After the attribution
/// block is inserted at the end-marker offset — what the annotate pass does —
/// the scanner still finds the region at the same line, ending at the end
/// marker's new position, and parsing it recovers the original local, base
/// and remote texts unchanged, with the inserted resolution marker line at
/// the old end offset.
#[verifier::rlimit(60)]
pub proof fn lemma_annotate_file_round_trip(
    lines: Seq<Seq<char>>,
    l: int,
    w: nat,
    ctx: int,
    file_path: Seq<char>,
    label: Seq<char>,
    resolved: Seq<char>,
    content: Seq<char>,
)
    requires
        w >= 1,
        0 <= l < lines.len(),
        forall|i: int| 0 <= i < lines.len() ==> is_terminated_line(#[trigger] lines[i]),
        forall|j: int| 0 <= j < l ==> !marker_line_matches(lines[j], MarkerKind::Local, w),
        marker_line_matches(lines[l], MarkerKind::Local, w),
        first_marker(lines, l + 1, MarkerKind::Base, w) is Some,
        first_marker(
            lines,
            first_marker(lines, l + 1, MarkerKind::Base, w)->Some_0 + 1,
            MarkerKind::Remote,
            w,
        ) is Some,
        first_scan_end(
            lines,
            first_marker(
                lines,
                first_marker(lines, l + 1, MarkerKind::Base, w)->Some_0 + 1,
                MarkerKind::Remote,
                w,
            )->Some_0 + 1,
            w,
        ) is Some,
        ({
            let e = first_scan_end(
                lines,
                first_marker(
                    lines,
                    first_marker(lines, l + 1, MarkerKind::Base, w)->Some_0 + 1,
                    MarkerKind::Remote,
                    w,
                )->Some_0 + 1,
                w,
            )->Some_0;
            (forall|j: int|
                l < j < e ==> !marker_line_matches(lines[j], MarkerKind::End, w))
                && parse_region_spec(
                lines.subrange(l, e + 1).flatten(),
                content,
                l + 1,
                file_path,
                w,
                ctx,
            ) is Ok
        }),
        forall|i: int|
            0 <= i < resolved_as_lines(resolved).len() ==> section_line(
                #[trigger] resolved_as_lines(resolved)[i],
                w,
            ),
        forall|j: int| 0 <= j < label.len() ==> label[j] != '\n',
    ensures
        ({
            let b = first_marker(lines, l + 1, MarkerKind::Base, w)->Some_0;
            let rm = first_marker(lines, b + 1, MarkerKind::Remote, w)->Some_0;
            let e = first_scan_end(lines, rm + 1, w)->Some_0;
            let c = parse_region_spec(
                lines.subrange(l, e + 1).flatten(),
                content,
                l + 1,
                file_path,
                w,
                ctx,
            )->Ok_0;
            let ai = labeled_marker_line('&', w, label);
            let res = resolved_as_lines(resolved);
            let nl = lines.subrange(0, e) + seq![ai] + res + lines.subrange(
                e,
                lines.len() as int,
            );
            let e2 = e + 1 + res.len();
            let r2 = parse_region_spec(
                nl.subrange(l, e2 + 1).flatten(),
                nl.flatten(),
                l + 1,
                file_path,
                w,
                ctx,
            );
            line_split(nl.flatten()) == nl && scan_regions(nl, 0, w) == seq![(l, e2)]
                + scan_regions(nl, e2 + 1, w) && r2 is Ok && r2->Ok_0.local == c.local
                && r2->Ok_0.base == c.base && r2->Ok_0.remote == c.remote
                && r2->Ok_0.remote_end == c.remote_end + 1 + res.len() && nl[e] == ai
        }),
{
    let b = first_marker(lines, l + 1, MarkerKind::Base, w)->Some_0;
    let rm = first_marker(lines, b + 1, MarkerKind::Remote, w)->Some_0;
    let e = first_scan_end(lines, rm + 1, w)->Some_0;
    lemma_first_marker(lines, l + 1, MarkerKind::Base, w);
    lemma_first_marker(lines, b + 1, MarkerKind::Remote, w);
    lemma_first_scan_end(lines, rm + 1, w);
    assert(l < b < rm < e < lines.len());

    let region_lines = lines.subrange(l, e + 1);
    let region = region_lines.flatten();
    assert forall|i: int| 0 <= i < region_lines.len() implies is_terminated_line(
        #[trigger] region_lines[i],
    ) by {
        assert(region_lines[i] == lines[l + i]);
    }
    lemma_line_split_roundtrip(region_lines);
    assert(line_split(region) == region_lines);
    let c = parse_region_spec(region, content, l + 1, file_path, w, ctx)->Ok_0;

    // the parse's end offset is the scanned end marker
    assert(first_marker(region_lines, 0, MarkerKind::End, w) == Some(e - l)) by {
        assert(marker_line_matches(region_lines[e - l], MarkerKind::End, w)) by {
            assert(region_lines[e - l] == lines[e]);
        }
        assert forall|j: int| 0 <= j < e - l implies !marker_line_matches(
            region_lines[j],
            MarkerKind::End,
            w,
        ) by {
            assert(region_lines[j] == lines[l + j]);
            if j == 0 {
                assert(lines[l][0] == '<');
                if marker_line_matches(lines[l], MarkerKind::End, w) {
                    assert(lines[l][0] == '>');
                }
            }
        }
        lemma_first_marker_at(region_lines, 0, MarkerKind::End, w, e - l);
    }
    assert(c.remote_end == e - l);

    let ai = labeled_marker_line('&', w, label);
    let res = resolved_as_lines(resolved);
    let rn = res.len() as int;
    let new_region_lines = region_lines.subrange(0, e - l) + seq![ai] + res
        + region_lines.subrange(e - l, region_lines.len() as int);

    let nl = lines.subrange(0, e) + seq![ai] + res + lines.subrange(e, lines.len() as int);
    // the region-level round trip, re-parsed against the annotated file
    lemma_annotate_round_trip(region, content, l + 1, file_path, w, ctx, label, resolved,
    nl.flatten(), l + 1);
    let e2 = e + 1 + rn;
    assert(nl.len() == lines.len() + 1 + rn);
    assert(forall|j: int| 0 <= j < e ==> nl[j] == lines[j]);
    assert(nl[e] == ai);
    assert(forall|j: int| 0 <= j < rn ==> nl[e + 1 + j] == res[j]);
    assert(forall|j: int| e <= j < lines.len() ==> nl[j + 1 + rn] == lines[j]);
    assert(nl[e2] == lines[e]);

    crate::markers::lemma_labeled_marker_line_matches('&', w, label);
    lemma_labeled_line_shape(ai, '&', w);
    assert(is_terminated_line(ai)) by {
        assert(ai.len() == w + 2 + label.len());
        assert(ai.last() == '\n');
        assert forall|j: int| 0 <= j < ai.len() - 1 implies ai[j] != '\n' by {
            if j < w {
                assert(ai[j] == '&');
            } else if j == w {
                assert(ai[j] == ' ');
            } else {
                assert(ai[j] == label[j - w - 1]);
            }
        }
    }
    assert forall|i: int| 0 <= i < nl.len() implies is_terminated_line(#[trigger] nl[i]) by {
        if i < e {
            assert(nl[i] == lines[i]);
        } else if i == e {
        } else if i < e2 {
            assert(nl[i] == res[i - e - 1]);
        } else {
            assert(nl[i] == lines[i - 1 - rn]);
        }
    }
    lemma_line_split_roundtrip(nl);

    // the scanner still finds the region at line l
    assert forall|j: int| 0 <= j < l implies !marker_line_matches(
        nl[j],
        MarkerKind::Local,
        w,
    ) by {
        assert(nl[j] == lines[j]);
    }
    lemma_scan_skip(nl, 0, l, w);
    assert(marker_line_matches(nl[l], MarkerKind::Local, w));
    assert forall|j: int| l + 1 <= j < b implies !marker_line_matches(
        nl[j],
        MarkerKind::Base,
        w,
    ) by {
        assert(nl[j] == lines[j]);
    }
    assert(marker_line_matches(nl[b], MarkerKind::Base, w));
    lemma_first_marker_at(nl, l + 1, MarkerKind::Base, w, b);
    assert forall|j: int| b + 1 <= j < rm implies !marker_line_matches(
        nl[j],
        MarkerKind::Remote,
        w,
    ) by {
        assert(nl[j] == lines[j]);
    }
    assert(marker_line_matches(nl[rm], MarkerKind::Remote, w));
    lemma_first_marker_at(nl, b + 1, MarkerKind::Remote, w, rm);
    assert forall|j: int| rm + 1 <= j < e2 implies !scan_end_matches(nl[j], w) by {
        if j < e {
            assert(nl[j] == lines[j]);
        } else if j == e {
            if scan_end_matches(ai, w) {
                assert(ai[0] == '>');
                assert(ai[0] == '&');
            }
        } else {
            assert(nl[j] == res[j - e - 1]);
            if scan_end_matches(nl[j], w) {
                assert(marker_line_matches(nl[j], MarkerKind::End, w));
            }
        }
    }
    assert(scan_end_matches(nl[e2], w));
    lemma_first_scan_end_at(nl, rm + 1, w, e2);
    assert(scan_regions(nl, l, w) == seq![(l, e2)] + scan_regions(nl, e2 + 1, w));

    // the scanned region text is the annotated region of the region lemma
    assert(nl.subrange(l, e2 + 1) =~= new_region_lines);
}


/// The structural outcome of a parse — success, the error, and the three
/// section texts — depends on the region text alone; the surrounding file
/// and starting line shape only the context windows.
proof fn lemma_parse_sections_context_free(
    region: Seq<char>,
    c1: Seq<char>,
    s1: int,
    c2: Seq<char>,
    s2: int,
    file_path: Seq<char>,
    w: nat,
    ctx: int,
)
    ensures
        ({
            let r1 = parse_region_spec(region, c1, s1, file_path, w, ctx);
            let r2 = parse_region_spec(region, c2, s2, file_path, w, ctx);
            &&& r1 is Ok <==> r2 is Ok
            &&& r1 is Err ==> r1 == r2
            &&& r1 is Ok ==> r1->Ok_0.local == r2->Ok_0.local && r1->Ok_0.base == r2->Ok_0.base
                && r1->Ok_0.remote == r2->Ok_0.remote && r1->Ok_0.remote_end
                == r2->Ok_0.remote_end
        }),
{
}

/// Round trip of collapse mode at the file level, for a file holding two
/// conflict regions and a resolution for the first: every line is complete,
/// no stray local marker stands outside the two regions, and the resolved
/// lines look like no marker. Replacing the first region — what the collapse
/// pass does — leaves exactly the second region's marker block: the scanner
/// finds it, byte-identical, as the file's first region, and parsing it
/// still recovers its sections.
#[verifier::rlimit(60)]
pub proof fn lemma_collapse_keeps_other_region(
    lines: Seq<Seq<char>>,
    l1: int,
    l2: int,
    w: nat,
    ctx: int,
    file_path: Seq<char>,
    resolved: Seq<char>,
    content: Seq<char>,
)
    requires
        w >= 1,
        0 <= l1 < l2 < lines.len(),
        forall|i: int| 0 <= i < lines.len() ==> is_terminated_line(#[trigger] lines[i]),
        forall|j: int| 0 <= j < l1 ==> !marker_line_matches(lines[j], MarkerKind::Local, w),
        first_marker(lines, l1, MarkerKind::End, w) is Some,
        first_marker(lines, l1, MarkerKind::End, w)->Some_0 < l2,
        forall|j: int|
            first_marker(lines, l1, MarkerKind::End, w)->Some_0 < j < l2
                ==> !marker_line_matches(lines[j], MarkerKind::Local, w),
        marker_line_matches(lines[l2], MarkerKind::Local, w),
        first_marker(lines, l2 + 1, MarkerKind::Base, w) is Some,
        first_marker(
            lines,
            first_marker(lines, l2 + 1, MarkerKind::Base, w)->Some_0 + 1,
            MarkerKind::Remote,
            w,
        ) is Some,
        first_scan_end(
            lines,
            first_marker(
                lines,
                first_marker(lines, l2 + 1, MarkerKind::Base, w)->Some_0 + 1,
                MarkerKind::Remote,
                w,
            )->Some_0 + 1,
            w,
        ) is Some,
        ({
            let e2 = first_scan_end(
                lines,
                first_marker(
                    lines,
                    first_marker(lines, l2 + 1, MarkerKind::Base, w)->Some_0 + 1,
                    MarkerKind::Remote,
                    w,
                )->Some_0 + 1,
                w,
            )->Some_0;
            parse_region_spec(
                lines.subrange(l2, e2 + 1).flatten(),
                content,
                l2 + 1,
                file_path,
                w,
                ctx,
            ) is Ok
        }),
        forall|i: int|
            0 <= i < resolved_as_lines(resolved).len() ==> section_line(
                #[trigger] resolved_as_lines(resolved)[i],
                w,
            ) && !marker_line_matches(resolved_as_lines(resolved)[i], MarkerKind::Local, w),
    ensures
        ({
            let e1 = first_marker(lines, l1, MarkerKind::End, w)->Some_0;
            let b2 = first_marker(lines, l2 + 1, MarkerKind::Base, w)->Some_0;
            let rm2 = first_marker(lines, b2 + 1, MarkerKind::Remote, w)->Some_0;
            let e2 = first_scan_end(lines, rm2 + 1, w)->Some_0;
            let c2 = parse_region_spec(
                lines.subrange(l2, e2 + 1).flatten(),
                content,
                l2 + 1,
                file_path,
                w,
                ctx,
            )->Ok_0;
            let res = resolved_as_lines(resolved);
            let nl = collapse_one(lines, l1 + 1, w, resolved);
            let shift = res.len() - (e1 + 1 - l1);
            let r2 = parse_region_spec(
                nl.subrange(l2 + shift, e2 + shift + 1).flatten(),
                nl.flatten(),
                l2 + shift + 1,
                file_path,
                w,
                ctx,
            );
            &&& nl == lines.subrange(0, l1) + res + lines.subrange(e1 + 1, lines.len() as int)
            &&& line_split(nl.flatten()) == nl
            &&& scan_regions(nl, 0, w) == seq![(l2 + shift, e2 + shift)] + scan_regions(
                nl,
                e2 + shift + 1,
                w,
            )
            &&& nl.subrange(l2 + shift, e2 + shift + 1) == lines.subrange(l2, e2 + 1)
            &&& r2 is Ok && r2->Ok_0.local == c2.local && r2->Ok_0.base == c2.base
                && r2->Ok_0.remote == c2.remote
        }),
{
    let e1 = first_marker(lines, l1, MarkerKind::End, w)->Some_0;
    let b2 = first_marker(lines, l2 + 1, MarkerKind::Base, w)->Some_0;
    let rm2 = first_marker(lines, b2 + 1, MarkerKind::Remote, w)->Some_0;
    let e2 = first_scan_end(lines, rm2 + 1, w)->Some_0;
    lemma_first_marker(lines, l1, MarkerKind::End, w);
    lemma_first_marker(lines, l2 + 1, MarkerKind::Base, w);
    lemma_first_marker(lines, b2 + 1, MarkerKind::Remote, w);
    lemma_first_scan_end(lines, rm2 + 1, w);
    assert(l1 <= e1 < l2 < b2 < rm2 < e2 < lines.len());

    let res = resolved_as_lines(resolved);
    let rn = res.len() as int;
    let shift = rn - (e1 + 1 - l1);
    let nl = collapse_one(lines, l1 + 1, w, resolved);
    assert(nl == lines.subrange(0, l1) + res + lines.subrange(e1 + 1, lines.len() as int));
    assert(nl.len() == l1 + rn + (lines.len() - e1 - 1));
    assert(forall|j: int| 0 <= j < l1 ==> nl[j] == lines[j]);
    assert(forall|k: int| 0 <= k < rn ==> nl[l1 + k] == res[k]);
    assert forall|j: int| e1 + 1 <= j < lines.len() implies nl[j + shift] == lines[j] by {
        assert(nl[j + shift] == lines.subrange(e1 + 1, lines.len() as int)[j - e1 - 1]);
    }

    assert forall|i: int| 0 <= i < nl.len() implies is_terminated_line(#[trigger] nl[i]) by {
        if i < l1 {
            assert(nl[i] == lines[i]);
        } else if i < l1 + rn {
            assert(nl[i] == res[i - l1]);
        } else {
            assert(nl[i] == lines[i - shift]);
        }
    }
    lemma_line_split_roundtrip(nl);

    // nothing before the surviving region is a local marker line
    assert forall|x: int| 0 <= x < l2 + shift implies !marker_line_matches(
        nl[x],
        MarkerKind::Local,
        w,
    ) by {
        if x < l1 {
            assert(nl[x] == lines[x]);
        } else if x < l1 + rn {
            assert(nl[x] == res[x - l1]);
        } else {
            assert(nl[x] == lines[x - shift]);
            assert(e1 < x - shift < l2);
        }
    }
    lemma_scan_skip(nl, 0, l2 + shift, w);
    assert(marker_line_matches(nl[l2 + shift], MarkerKind::Local, w)) by {
        assert(nl[l2 + shift] == lines[l2]);
    }
    assert forall|j: int| l2 + shift + 1 <= j < b2 + shift implies !marker_line_matches(
        nl[j],
        MarkerKind::Base,
        w,
    ) by {
        assert(nl[j] == lines[j - shift]);
    }
    assert(marker_line_matches(nl[b2 + shift], MarkerKind::Base, w)) by {
        assert(nl[b2 + shift] == lines[b2]);
    }
    lemma_first_marker_at(nl, l2 + shift + 1, MarkerKind::Base, w, b2 + shift);
    assert forall|j: int| b2 + shift + 1 <= j < rm2 + shift implies !marker_line_matches(
        nl[j],
        MarkerKind::Remote,
        w,
    ) by {
        assert(nl[j] == lines[j - shift]);
    }
    assert(marker_line_matches(nl[rm2 + shift], MarkerKind::Remote, w)) by {
        assert(nl[rm2 + shift] == lines[rm2]);
    }
    lemma_first_marker_at(nl, b2 + shift + 1, MarkerKind::Remote, w, rm2 + shift);
    assert forall|j: int| rm2 + shift + 1 <= j < e2 + shift implies !scan_end_matches(
        nl[j],
        w,
    ) by {
        assert(nl[j] == lines[j - shift]);
    }
    assert(scan_end_matches(nl[e2 + shift], w)) by {
        assert(nl[e2 + shift] == lines[e2]);
    }
    lemma_first_scan_end_at(nl, rm2 + shift + 1, w, e2 + shift);
    assert(scan_regions(nl, l2 + shift, w) == seq![(l2 + shift, e2 + shift)] + scan_regions(
        nl,
        e2 + shift + 1,
        w,
    ));

    // the surviving block is byte-identical
    assert forall|k: int| 0 <= k < e2 + 1 - l2 implies #[trigger] nl.subrange(
        l2 + shift,
        e2 + shift + 1,
    )[k] == lines.subrange(l2, e2 + 1)[k] by {
        assert(nl[l2 + shift + k] == lines[l2 + k]);
    }
    assert(nl.subrange(l2 + shift, e2 + shift + 1) =~= lines.subrange(l2, e2 + 1));

    lemma_parse_sections_context_free(
        lines.subrange(l2, e2 + 1).flatten(),
        content,
        l2 + 1,
        nl.flatten(),
        l2 + shift + 1,
        file_path,
        w,
        ctx,
    );
}

} // verus!
