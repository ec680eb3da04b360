//! Core data model: configuration, parsed conflicts, candidate resolutions
//! and the error taxonomy.

use vstd::prelude::*;

verus! {

/// Context window configuration. The parsing core only consumes
/// `code_context_lines`; the two other counts are carried for the callers
/// that assemble diffs and patches.
#[derive(Debug, Clone, Copy)]
pub struct ContextLines {
    pub code_context_lines: u32,
    pub diff_context_lines: u32,
    pub patch_context_lines: u32,
}

/// The engine: parsing, consensus and reconciliation over plain values.
/// Callers supply file contents, attribute lookups and candidate resolutions
/// and perform all file and process handling themselves.
pub struct GitUtils {
    pub context_lines: ContextLines,
}

impl GitUtils {
    pub fn new(context_lines: ContextLines) -> (r: GitUtils)
        ensures
            r.context_lines.code_context_lines == context_lines.code_context_lines,
            r.context_lines.diff_context_lines == context_lines.diff_context_lines,
            r.context_lines.patch_context_lines == context_lines.patch_context_lines,
    {
        GitUtils { context_lines }
    }
}

/// One parsed conflict region, immutable once produced.
pub struct Conflict {
    /// Repository-relative path of the file the region was found in.
    pub file_path: String,
    /// Verbatim text between the local marker and the base marker.
    pub local: String,
    /// Verbatim text between the base marker and the remote separator.
    pub base: String,
    /// Verbatim text between the remote separator and the resolution marker,
    /// or the end marker when no resolution marker is present.
    pub remote: String,
    /// Up to `code_context_lines` lines immediately before the region, never
    /// crossing a neighboring conflict's end marker.
    pub head_context: String,
    /// Up to `code_context_lines` lines immediately after the region, never
    /// crossing a following conflict's local marker.
    pub tail_context: String,
    /// One-based line number of the local marker line.
    pub start_line: usize,
    /// Offset, relative to the local marker line, of the end marker line
    /// inside the region; the anchor for annotated insertion.
    pub remote_end: usize,
    pub nr_head_context_lines: usize,
    pub nr_tail_context_lines: usize,
    /// The marker width resolved for this file.
    pub marker_size: usize,
}

#[verifier::ext_equal]
pub struct ConflictView {
    pub file_path: Seq<char>,
    pub local: Seq<char>,
    pub base: Seq<char>,
    pub remote: Seq<char>,
    pub head_context: Seq<char>,
    pub tail_context: Seq<char>,
    pub start_line: int,
    pub remote_end: int,
    pub nr_head_context_lines: int,
    pub nr_tail_context_lines: int,
    pub marker_size: int,
}

impl View for Conflict {
    type V = ConflictView;

    open spec fn view(&self) -> ConflictView {
        ConflictView {
            file_path: self.file_path@,
            local: self.local@,
            base: self.base@,
            remote: self.remote@,
            head_context: self.head_context@,
            tail_context: self.tail_context@,
            start_line: self.start_line as int,
            remote_end: self.remote_end as int,
            nr_head_context_lines: self.nr_head_context_lines as int,
            nr_tail_context_lines: self.nr_tail_context_lines as int,
            marker_size: self.marker_size as int,
        }
    }
}

impl DeepView for Conflict {
    type V = ConflictView;

    open spec fn deep_view(&self) -> ConflictView {
        self.view()
    }
}

impl Clone for Conflict {
    fn clone(&self) -> (r: Conflict)
        ensures
            r == *self,
    {
        Conflict {
            file_path: self.file_path.clone(),
            local: self.local.clone(),
            base: self.base.clone(),
            remote: self.remote.clone(),
            head_context: self.head_context.clone(),
            tail_context: self.tail_context.clone(),
            start_line: self.start_line,
            remote_end: self.remote_end,
            nr_head_context_lines: self.nr_head_context_lines,
            nr_tail_context_lines: self.nr_tail_context_lines,
            marker_size: self.marker_size,
        }
    }
}

impl Conflict {
    /// Structural, by-value comparison, the equality the consensus engine
    /// groups by.
    pub fn same_as(&self, other: &Conflict) -> (r: bool)
        ensures
            r == (self@ == other@),
    {
        let r = self.file_path == other.file_path && self.local == other.local && self.base
            == other.base && self.remote == other.remote && self.head_context
            == other.head_context && self.tail_context == other.tail_context && self.start_line
            == other.start_line && self.remote_end == other.remote_end
            && self.nr_head_context_lines == other.nr_head_context_lines
            && self.nr_tail_context_lines == other.nr_tail_context_lines && self.marker_size
            == other.marker_size;
        proof {
            if r {
                assert(self@ =~= other@);
            }
        }
        r
    }
}

/// A single original candidate folded into a consensus group: the flat record
/// of one model/endpoint answer.
pub struct Candidate {
    pub conflict: Conflict,
    pub resolved_version: String,
    pub model: String,
    /// Elapsed time for this candidate, in milliseconds.
    pub duration: u64,
    pub total_tokens: Option<u64>,
    /// Confidence in log-probability units, scaled to millionths.
    pub logprob: Option<i64>,
    /// Priority rank of the producing endpoint; lower is preferred.
    pub endpoint: usize,
}

#[verifier::ext_equal]
pub struct CandidateView {
    pub conflict: ConflictView,
    pub resolved_version: Seq<char>,
    pub model: Seq<char>,
    pub duration: int,
    pub total_tokens: Option<int>,
    pub logprob: Option<int>,
    pub endpoint: int,
}

impl View for Candidate {
    type V = CandidateView;

    open spec fn view(&self) -> CandidateView {
        CandidateView {
            conflict: self.conflict@,
            resolved_version: self.resolved_version@,
            model: self.model@,
            duration: self.duration as int,
            total_tokens: match self.total_tokens {
                Some(t) => Some(t as int),
                None => None,
            },
            logprob: match self.logprob {
                Some(l) => Some(l as int),
                None => None,
            },
            endpoint: self.endpoint as int,
        }
    }
}

impl DeepView for Candidate {
    type V = CandidateView;

    open spec fn deep_view(&self) -> CandidateView {
        self.view()
    }
}

impl Clone for Candidate {
    fn clone(&self) -> (r: Candidate)
        ensures
            r == *self,
    {
        Candidate {
            conflict: self.conflict.clone(),
            resolved_version: self.resolved_version.clone(),
            model: self.model.clone(),
            duration: self.duration,
            total_tokens: self.total_tokens,
            logprob: self.logprob,
            endpoint: self.endpoint,
        }
    }
}

/// A candidate resolution, either fresh from one endpoint or the merged
/// representative of a consensus group.
pub struct ResolvedConflict {
    /// The originating conflict, compared structurally.
    pub conflict: Conflict,
    /// Final candidate text, without markers.
    pub resolved_version: String,
    /// Display identity of the producing model or combined identities of a
    /// group.
    pub model: String,
    /// Elapsed time in milliseconds; after merging, the maximum of the group.
    pub duration: u64,
    /// Token cost; after merging, the mean of the members that reported one.
    pub total_tokens: Option<u64>,
    /// Confidence in log-probability millionths; after merging, the mean of
    /// the members that reported one.
    pub logprob: Option<i64>,
    /// Endpoint priority rank; after merging, the minimum of the group.
    pub endpoint: usize,
    /// The original candidates folded into this record; empty before
    /// deduplication.
    pub deduplicated_conflicts: Vec<Candidate>,
}

#[verifier::ext_equal]
pub struct ResolvedConflictView {
    pub conflict: ConflictView,
    pub resolved_version: Seq<char>,
    pub model: Seq<char>,
    pub duration: int,
    pub total_tokens: Option<int>,
    pub logprob: Option<int>,
    pub endpoint: int,
    pub deduplicated_conflicts: Seq<CandidateView>,
}

impl View for ResolvedConflict {
    type V = ResolvedConflictView;

    open spec fn view(&self) -> ResolvedConflictView {
        ResolvedConflictView {
            conflict: self.conflict@,
            resolved_version: self.resolved_version@,
            model: self.model@,
            duration: self.duration as int,
            total_tokens: match self.total_tokens {
                Some(t) => Some(t as int),
                None => None,
            },
            logprob: match self.logprob {
                Some(l) => Some(l as int),
                None => None,
            },
            endpoint: self.endpoint as int,
            deduplicated_conflicts: self.deduplicated_conflicts.deep_view(),
        }
    }
}

impl DeepView for ResolvedConflict {
    type V = ResolvedConflictView;

    open spec fn deep_view(&self) -> ResolvedConflictView {
        self.view()
    }
}

impl ResolvedConflictView {
    /// The flat record of this resolution, without the folded group members.
    pub open spec fn flat(self) -> CandidateView {
        CandidateView {
            conflict: self.conflict,
            resolved_version: self.resolved_version,
            model: self.model,
            duration: self.duration,
            total_tokens: self.total_tokens,
            logprob: self.logprob,
            endpoint: self.endpoint,
        }
    }
}

impl Clone for ResolvedConflict {
    fn clone(&self) -> (r: ResolvedConflict)
        ensures
            r@ == self@,
    {
        let r = ResolvedConflict {
            conflict: self.conflict.clone(),
            resolved_version: self.resolved_version.clone(),
            model: self.model.clone(),
            duration: self.duration,
            total_tokens: self.total_tokens,
            logprob: self.logprob,
            endpoint: self.endpoint,
            deduplicated_conflicts: self.deduplicated_conflicts.clone(),
        };
        proof {
            assert(r.deduplicated_conflicts.deep_view() =~= self.deduplicated_conflicts.deep_view());
            assert(r@ =~= self@);
        }
        r
    }
}

impl ResolvedConflict {
    /// The flat record of this resolution, cloned without the folded group
    /// members.
    pub fn to_candidate(&self) -> (r: Candidate)
        ensures
            r@ == self@.flat(),
    {
        Candidate {
            conflict: self.conflict.clone(),
            resolved_version: self.resolved_version.clone(),
            model: self.model.clone(),
            duration: self.duration,
            total_tokens: self.total_tokens,
            logprob: self.logprob,
            endpoint: self.endpoint,
        }
    }
}

/// One file handed to conflict discovery: its repository-relative path, its
/// full text, and the marker width resolved for it.
pub struct FileInput {
    pub path: String,
    pub content: String,
    pub marker_size: usize,
}

#[verifier::ext_equal]
pub struct FileInputView {
    pub path: Seq<char>,
    pub content: Seq<char>,
    pub marker_size: int,
}

impl View for FileInput {
    type V = FileInputView;

    open spec fn view(&self) -> FileInputView {
        FileInputView {
            path: self.path@,
            content: self.content@,
            marker_size: self.marker_size as int,
        }
    }
}

impl DeepView for FileInput {
    type V = FileInputView;

    open spec fn deep_view(&self) -> FileInputView {
        self.view()
    }
}

/// Everything that can go wrong in the engine. Structural errors are never
/// auto-repaired; invariant violations mean a caller broke the contract of
/// the consensus step.
#[derive(Debug, Clone, Copy, PartialEq, Eq, Structural)]
pub enum ResolveError {
    /// No local marker line in a region handed to the structural parser.
    MissingLocalMarker,
    /// No base marker line in the region.
    MissingBaseMarker,
    /// No bare remote separator line in the region.
    MissingRemoteMarker,
    /// No end marker line in the region.
    MissingEndMarker,
    /// The marker lines are present but out of order; the positions are the
    /// zero-based line offsets found inside the region.
    InvalidMarkerOrder {
        local_start: usize,
        base_start: usize,
        remote_start: usize,
        ai_start: usize,
        remote_end: usize,
    },
    /// A line of the region begins with more repeated marker characters than
    /// the marker width allows: leftover markers from an earlier conflict.
    NestedMarkers,
    /// Two candidates in one consensus group carried the same model-name
    /// suffix for the same prefix.
    DuplicateSuffix,
    /// Two candidates agreed on file, line and text but carried structurally
    /// different conflicts.
    ConflictMismatch,
    /// The version-control configuration does not select the three-way
    /// conflict style the parser expects.
    NotDiff3,
}

} // verus!
