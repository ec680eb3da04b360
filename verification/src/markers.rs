//! Marker grammar: the textual shape of conflict marker lines for a given
//! marker width, and detection of nested (corrupted) markers.

use vstd::prelude::*;

use crate::strutil::push_char;
use crate::strutil::repeat_char;
use crate::types::GitUtils;

verus! {

/// The marker width used when a file has no explicit attribute.
pub const DEFAULT_MARKER_SIZE: usize = 7;

/// The five marker kinds of a conflict region.
#[derive(Debug, Clone, Copy, PartialEq, Eq, Structural)]
pub enum MarkerKind {
    /// `<`, opens the region and the local section.
    Local,
    /// `|`, opens the base section.
    Base,
    /// `=`, the bare separator before the remote section.
    Remote,
    /// `&`, opens an inserted resolution block.
    Ai,
    /// `>`, closes the region.
    End,
}

/// `n` repetitions of `c`: the bare marker text.
pub open spec fn run_of(c: char, n: nat) -> Seq<char> {
    Seq::new(n, |i: int| c)
}

/// The line begins with at least `n` repetitions of `c`.
pub open spec fn has_run_prefix(line: Seq<char>, c: char, n: nat) -> bool {
    line.len() >= n && (forall|i: int| 0 <= i < n ==> line[i] == c)
}

/// A marker line carrying a label: the run, one space, then anything.
pub open spec fn is_labeled_marker_line(line: Seq<char>, c: char, w: nat) -> bool {
    line.len() >= w + 1 && has_run_prefix(line, c, w) && line[w as int] == ' '
}

/// How each marker kind appears on a line, exactly as the region matcher
/// recognizes it: local, base and resolution markers carry a label after one
/// space; the remote separator is bare, newline-terminated; the end marker is
/// recognized by its run alone.
pub open spec fn marker_line_matches(line: Seq<char>, k: MarkerKind, w: nat) -> bool {
    match k {
        MarkerKind::Local => is_labeled_marker_line(line, '<', w),
        MarkerKind::Base => is_labeled_marker_line(line, '|', w),
        MarkerKind::Remote => line.len() == w + 1 && has_run_prefix(line, '=', w) && line[
            w as int
        ] == '\n',
        MarkerKind::Ai => is_labeled_marker_line(line, '&', w),
        MarkerKind::End => has_run_prefix(line, '>', w),
    }
}

pub open spec fn is_conflict_marker_char(c: char) -> bool {
    c == '<' || c == '|' || c == '=' || c == '&' || c == '>'
}

/// Corruption: the line begins with strictly more repetitions of one marker
/// character than the width allows, i.e. leftover markers of an earlier,
/// wider conflict survive in the text.
pub open spec fn has_nested_marker(line: Seq<char>, w: nat) -> bool {
    exists|c: char| is_conflict_marker_char(c) && has_run_prefix(line, c, w + 1)
}

pub fn line_has_run_prefix(line: &str, c: char, n: usize) -> (b: bool)
    ensures
        b == has_run_prefix(line@, c, n as nat),
{
    if line.unicode_len() < n {
        return false;
    }
    let mut i: usize = 0;
    while i < n
        invariant
            i <= n,
            n <= line@.len(),
            forall|j: int| 0 <= j < i ==> line@[j] == c,
        decreases n - i,
    {
        if line.get_char(i) != c {
            return false;
        }
        i += 1;
    }
    true
}

pub fn line_matches_marker(line: &str, k: MarkerKind, w: usize) -> (b: bool)
    ensures
        b == marker_line_matches(line@, k, w as nat),
{
    match k {
        MarkerKind::Local => line_is_labeled(line, '<', w),
        MarkerKind::Base => line_is_labeled(line, '|', w),
        MarkerKind::Remote => {
            let ln = line.unicode_len();
            if ln <= w || ln - 1 != w {
                return false;
            }
            line_has_run_prefix(line, '=', w) && line.get_char(w) == '\n'
        },
        MarkerKind::Ai => line_is_labeled(line, '&', w),
        MarkerKind::End => line_has_run_prefix(line, '>', w),
    }
}

pub fn line_is_labeled(line: &str, c: char, w: usize) -> (b: bool)
    ensures
        b == is_labeled_marker_line(line@, c, w as nat),
{
    if line.unicode_len() <= w {
        return false;
    }
    line_has_run_prefix(line, c, w) && line.get_char(w) == ' '
}

pub fn line_has_nested_marker(line: &str, w: usize) -> (b: bool)
    requires
        w < usize::MAX,
    ensures
        b == has_nested_marker(line@, w as nat),
{
    if line_has_run_prefix(line, '<', w + 1) {
        proof {
            assert(is_conflict_marker_char('<') && has_run_prefix(line@, '<', w as nat + 1));
        }
        return true;
    }
    if line_has_run_prefix(line, '|', w + 1) {
        proof {
            assert(is_conflict_marker_char('|') && has_run_prefix(line@, '|', w as nat + 1));
        }
        return true;
    }
    if line_has_run_prefix(line, '=', w + 1) {
        proof {
            assert(is_conflict_marker_char('=') && has_run_prefix(line@, '=', w as nat + 1));
        }
        return true;
    }
    if line_has_run_prefix(line, '&', w + 1) {
        proof {
            assert(is_conflict_marker_char('&') && has_run_prefix(line@, '&', w as nat + 1));
        }
        return true;
    }
    if line_has_run_prefix(line, '>', w + 1) {
        proof {
            assert(is_conflict_marker_char('>') && has_run_prefix(line@, '>', w as nat + 1));
        }
        return true;
    }
    proof {
        assert forall|c: char| is_conflict_marker_char(c) implies !has_run_prefix(
            line@,
            c,
            w as nat + 1,
        ) by {}
    }
    false
}

impl GitUtils {
    /// The bare marker text: `size` repetitions of the marker character.
    pub fn create_marker(marker: char, size: usize) -> (r: String)
        ensures
            r@ == run_of(marker, size as nat),
    {
        repeat_char(marker, size)
    }

    pub fn create_local_marker(size: usize) -> (r: String)
        ensures
            r@ == run_of('<', size as nat),
    {
        Self::create_marker('<', size)
    }

    pub fn create_base_marker(size: usize) -> (r: String)
        ensures
            r@ == run_of('|', size as nat),
    {
        Self::create_marker('|', size)
    }

    pub fn create_remote_marker(size: usize) -> (r: String)
        ensures
            r@ == run_of('=', size as nat),
    {
        Self::create_marker('=', size)
    }

    pub fn create_ai_marker(size: usize) -> (r: String)
        ensures
            r@ == run_of('&', size as nat),
    {
        Self::create_marker('&', size)
    }

    pub fn create_end_marker(size: usize) -> (r: String)
        ensures
            r@ == run_of('>', size as nat),
    {
        Self::create_marker('>', size)
    }
}

/// A full marker line with a label: the run, one space, the label, a newline.
pub open spec fn labeled_marker_line(c: char, w: nat, label: Seq<char>) -> Seq<char> {
    run_of(c, w) + seq![' '] + label + seq!['\n']
}

/// Builds the line `marker + " " + label + "\n"` and shows it matches its own
/// grammar.
pub fn build_labeled_marker_line(c: char, w: usize, label: &str) -> (r: String)
    ensures
        r@ == labeled_marker_line(c, w as nat, label@),
{
    let mut r = repeat_char(c, w);
    push_char(&mut r, ' ');
    r.append(label);
    push_char(&mut r, '\n');
    proof {
        assert(r@ =~= labeled_marker_line(c, w as nat, label@));
    }
    r
}

pub proof fn lemma_labeled_marker_line_matches(c: char, w: nat, label: Seq<char>)
    ensures
        is_labeled_marker_line(labeled_marker_line(c, w, label), c, w),
{
    let line = labeled_marker_line(c, w, label);
    assert(line.len() >= w + 1);
    assert forall|i: int| 0 <= i < w implies line[i] == c by {
        assert(line[i] == run_of(c, w)[i]);
    }
    assert(line[w as int] == ' ');
}

} // verus!
