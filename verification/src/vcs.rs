//! The compute side of the version-control collaborator: validating the
//! conflict style, reading a file's marker width out of an attribute lookup,
//! and trimming a raw committed diff down to its patch lines.

use vstd::prelude::*;

use crate::markers::DEFAULT_MARKER_SIZE;
use crate::strutil::line_split;
use crate::strutil::parse_usize_spec;
use crate::strutil::parse_usize;
use crate::strutil::push_char;
use crate::strutil::split_lines;
use crate::strutil::starts_with_spec;
use crate::strutil::starts_with_str;
use crate::strutil::str_eq;
use crate::strutil::trim;
use crate::strutil::trim_spec;
use crate::types::GitUtils;
use crate::types::ResolveError;

verus! {

/// The marker width one attribute line assigns to `path`: the line must name
/// the path, then the marker-size attribute, then an unsigned decimal value.
pub open spec fn attr_line_size(line: Seq<char>, path: Seq<char>) -> Option<usize> {
    if starts_with_spec(line, path + seq![':']) {
        let rest = trim_spec(line.skip(path.len() as int + 1));
        if starts_with_spec(rest, "conflict-marker-size: "@) {
            parse_usize_spec(rest.skip("conflict-marker-size: "@.len() as int))
        } else {
            None
        }
    } else {
        None
    }
}

/// The width the attribute output as a whole assigns: the first line that
/// parses, or the default width.
pub open spec fn marker_size_from_attr(lines: Seq<Seq<char>>, path: Seq<char>, i: int) -> usize
    decreases lines.len() - i,
{
    if i < 0 || i >= lines.len() {
        DEFAULT_MARKER_SIZE
    } else {
        match attr_line_size(lines[i], path) {
            Some(sz) => sz,
            None => marker_size_from_attr(lines, path, i + 1),
        }
    }
}

/// The patch lines kept from raw committed-diff text: a header line starting
/// a new file turns copying off until its `---` line; everything after stays.
pub open spec fn filter_diff_lines(lines: Seq<Seq<char>>, i: int, copying: bool) -> Seq<Seq<char>>
    decreases lines.len() - i,
{
    if i < 0 || i >= lines.len() {
        Seq::empty()
    } else if starts_with_spec(lines[i], "diff --git"@) {
        seq![lines[i]] + filter_diff_lines(lines, i + 1, false)
    } else if starts_with_spec(lines[i], "---"@) {
        seq![lines[i]] + filter_diff_lines(lines, i + 1, true)
    } else if copying {
        seq![lines[i]] + filter_diff_lines(lines, i + 1, copying)
    } else {
        filter_diff_lines(lines, i + 1, copying)
    }
}

impl GitUtils {
    /// Accepts only the three-way conflict style the structural parser
    /// expects: the trimmed configuration value must be exactly `diff3`.
    pub fn check_diff3(&self, config_value: &str) -> (r: Result<(), ResolveError>)
        ensures
            r is Ok <==> trim_spec(config_value@) == "diff3"@,
            r is Err ==> r->Err_0 == ResolveError::NotDiff3,
    {
        let t = trim(config_value);
        if str_eq(t.as_str(), "diff3") {
            Ok(())
        } else {
            Err(ResolveError::NotDiff3)
        }
    }

    /// Reads the marker width for `file_path` out of attribute-lookup output:
    /// the first line of the shape `path: conflict-marker-size: N` wins; a
    /// file without the attribute keeps the default width.
    pub fn get_marker_size_for_file(&self, file_path: &str, attr_output: &str) -> (r: usize)
        ensures
            r == marker_size_from_attr(line_split(attr_output@), file_path@, 0),
    {
        let lines = split_lines(attr_output);
        let ghost lv = lines.deep_view();
        let n = lines.len();
        let mut pat = String::from_str(file_path);
        push_char(&mut pat, ':');
        proof {
            assert(pat@ =~= file_path@ + seq![':']);
        }
        let pat_len = pat.unicode_len();
        let mut i: usize = 0;
        while i < n
            invariant
                i <= n,
                n == lv.len(),
                lv == lines.deep_view(),
                lv == line_split(attr_output@),
                pat@ == file_path@ + seq![':'],
                pat_len == pat@.len(),
                marker_size_from_attr(lv, file_path@, 0) == marker_size_from_attr(
                    lv,
                    file_path@,
                    i as int,
                ),
            decreases n - i,
        {
            proof {
                assert(lv[i as int] == lines@[i as int]@);
            }
            let line = lines[i].as_str();
            if starts_with_str(line, pat.as_str()) {
                let rest = trim(line.substring_char(pat_len, line.unicode_len()));
                proof {
                    assert(line@.subrange(pat_len as int, line@.len() as int) =~= line@.skip(
                        file_path@.len() as int + 1,
                    ));
                }
                if starts_with_str(rest.as_str(), "conflict-marker-size: ") {
                    let plen = "conflict-marker-size: ".unicode_len();
                    let value = rest.as_str().substring_char(plen, rest.as_str().unicode_len());
                    proof {
                        assert(value@ =~= rest@.skip("conflict-marker-size: "@.len() as int));
                    }
                    match parse_usize(value) {
                        Some(sz) => {
                            proof {
                                assert(starts_with_spec(lv[i as int], file_path@ + seq![':']));
                                assert(rest@ == trim_spec(lv[i as int].skip(
                                    file_path@.len() as int + 1,
                                )));
                                assert(parse_usize_spec(rest@.skip(
                                    "conflict-marker-size: "@.len() as int,
                                )) == Some(sz));
                                assert(attr_line_size(lv[i as int], file_path@) == Some(sz));
                            }
                            return sz;
                        },
                        None => {},
                    }
                }
            }
            i += 1;
        }
        DEFAULT_MARKER_SIZE
    }

    /// Keeps, from raw committed-diff text, each file's header line, its
    /// `---` line and everything from there to the next file: what the
    /// surrounding tooling shows as the patch itself.
    pub fn extract_diff(&self, show_output: &str) -> (r: String)
        ensures
            r@ == filter_diff_lines(line_split(show_output@), 0, true).flatten(),
    {
        broadcast use vstd::seq::Seq::lemma_flatten_push;

        let lines = split_lines(show_output);
        let ghost lv = lines.deep_view();
        let n = lines.len();
        let mut out = String::new();
        let mut copying = true;
        let ghost full = filter_diff_lines(lv, 0, true);
        let mut i: usize = 0;
        proof {
            let kept0 = Seq::<Seq<char>>::empty();
            assert(kept0.flatten() =~= Seq::<char>::empty());
            assert(out@ == kept0.flatten());
            assert(full =~= kept0 + filter_diff_lines(lv, 0, true));
        }
        while i < n
            invariant
                i <= n,
                n == lv.len(),
                lv == lines.deep_view(),
                lv == line_split(show_output@),
                full == filter_diff_lines(lv, 0, true),
                exists|kept: Seq<Seq<char>>|
                    out@ == (#[trigger] kept.flatten()) && full == kept + filter_diff_lines(
                        lv,
                        i as int,
                        copying,
                    ),
            decreases n - i,
        {
            proof {
                assert(lv[i as int] == lines@[i as int]@);
            }
            let ghost kept = choose|kept: Seq<Seq<char>>|
                out@ == (#[trigger] kept.flatten()) && full == kept + filter_diff_lines(
                    lv,
                    i as int,
                    copying,
                );
            let line = lines[i].as_str();
            let keep: bool;
            if starts_with_str(line, "diff --git") {
                keep = true;
                copying = false;
            } else if starts_with_str(line, "---") {
                keep = true;
                copying = true;
            } else {
                keep = copying;
            }
            if keep {
                out.append(line);
                proof {
                    kept.lemma_flatten_push(lv[i as int]);
                    assert(full == kept.push(lv[i as int]) + filter_diff_lines(
                        lv,
                        i + 1,
                        copying,
                    )) by {
                        assert(seq![lv[i as int]] + filter_diff_lines(lv, i + 1, copying)
                            =~= seq![lv[i as int]] + filter_diff_lines(lv, i + 1, copying));
                        assert(kept + (seq![lv[i as int]] + filter_diff_lines(lv, i + 1, copying))
                            =~= kept.push(lv[i as int]) + filter_diff_lines(lv, i + 1, copying));
                    }
                }
            } else {
                proof {
                    assert(full == kept + filter_diff_lines(lv, i + 1, copying));
                }
            }
            i += 1;
        }
        proof {
            let kept = choose|kept: Seq<Seq<char>>|
                out@ == (#[trigger] kept.flatten()) && full == kept + filter_diff_lines(
                    lv,
                    i as int,
                    copying,
                );
            assert(filter_diff_lines(lv, i as int, copying) =~= Seq::<Seq<char>>::empty());
            assert(full =~= kept);
        }
        out
    }
}

} // verus!
