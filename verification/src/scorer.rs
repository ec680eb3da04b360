//! Confidence scorer: given one model response's per-token log-probability
//! trace and the two sentinels delimiting the generated patch, computes the
//! scalar confidence value and the high-uncertainty alternative continuations
//! ("perplexity beams"). Log-probabilities are carried as integers in
//! millionths of a log unit.

use vstd::prelude::*;

use crate::strutil::find_sub_spec;
use crate::strutil::find_sub;
use crate::strutil::is_space;
use crate::strutil::char_is_space;
use crate::strutil::lemma_find_sub;
use crate::strutil::push_char;
use crate::strutil::str_eq;

verus! {

/// One alternative continuation a model reported for a token position.
pub struct TopEntry {
    pub token: String,
    /// Log-probability in millionths.
    pub logprob: i64,
}

/// One token of a model response's log-probability trace.
pub struct TokenEntry {
    pub token: String,
    /// Log-probability in millionths.
    pub logprob: i64,
    /// The alternative continuations reported for this position; empty when
    /// the response carried none.
    pub top_logprobs: Vec<TopEntry>,
}

#[verifier::ext_equal]
pub struct TopEntryView {
    pub token: Seq<char>,
    pub logprob: int,
}

#[verifier::ext_equal]
pub struct TokenEntryView {
    pub token: Seq<char>,
    pub logprob: int,
    pub top_logprobs: Seq<TopEntryView>,
}

impl View for TopEntry {
    type V = TopEntryView;

    open spec fn view(&self) -> TopEntryView {
        TopEntryView { token: self.token@, logprob: self.logprob as int }
    }
}

impl DeepView for TopEntry {
    type V = TopEntryView;

    open spec fn deep_view(&self) -> TopEntryView {
        self.view()
    }
}

impl View for TokenEntry {
    type V = TokenEntryView;

    open spec fn view(&self) -> TokenEntryView {
        TokenEntryView {
            token: self.token@,
            logprob: self.logprob as int,
            top_logprobs: self.top_logprobs.deep_view(),
        }
    }
}

impl DeepView for TokenEntry {
    type V = TokenEntryView;

    open spec fn deep_view(&self) -> TokenEntryView {
        self.view()
    }
}

/// The concatenation of the first `i` token texts.
pub open spec fn concat_tokens(ts: Seq<TokenEntryView>, i: int) -> Seq<char>
    decreases i,
{
    if i <= 0 {
        Seq::empty()
    } else {
        concat_tokens(ts, i - 1) + ts[i - 1].token
    }
}

/// The character offset at which token `i` starts.
pub open spec fn offset_of(ts: Seq<TokenEntryView>, i: int) -> int {
    concat_tokens(ts, i).len() as int
}

/// A final empty token is ignored by the scoring pass.
pub open spec fn entry_skipped(ts: Seq<TokenEntryView>, i: int) -> bool {
    i == ts.len() - 1 && ts[i].token.len() == 0
}

/// Token `i` counts toward the confidence value: not skipped, and starting
/// inside the delimited patch.
pub open spec fn entry_scored(ts: Seq<TokenEntryView>, i: int, sp: int, ep: int) -> bool {
    !entry_skipped(ts, i) && sp <= offset_of(ts, i) < ep
}

/// The lowest raw log-probability over the first `i` tokens, with the first
/// position attaining it; the whole trace's diagnostic minimum.
pub open spec fn raw_scan(ts: Seq<TokenEntryView>, i: int) -> Option<(int, int)>
    decreases i,
{
    if i <= 0 {
        None
    } else {
        let prev = raw_scan(ts, i - 1);
        if entry_skipped(ts, i - 1) {
            prev
        } else {
            match prev {
                None => Some((ts[i - 1].logprob, i - 1)),
                Some(p) => if ts[i - 1].logprob < p.0 {
                    Some((ts[i - 1].logprob, i - 1))
                } else {
                    prev
                },
            }
        }
    }
}

/// The lowest log-probability over the scored range of the first `i` tokens,
/// with the first position attaining it.
pub open spec fn range_scan(ts: Seq<TokenEntryView>, sp: int, ep: int, i: int) -> Option<
    (int, int),
>
    decreases i,
{
    if i <= 0 {
        None
    } else {
        let prev = range_scan(ts, sp, ep, i - 1);
        if !entry_scored(ts, i - 1, sp, ep) {
            prev
        } else {
            match prev {
                None => Some((ts[i - 1].logprob, i - 1)),
                Some(p) => if ts[i - 1].logprob < p.0 {
                    Some((ts[i - 1].logprob, i - 1))
                } else {
                    prev
                },
            }
        }
    }
}

/// The confidence value: the lowest log-probability among the tokens between
/// the patch sentinels, or nothing when a sentinel is missing or no token
/// lies between them.
pub open spec fn logprob_spec(ts: Seq<TokenEntryView>, pstart: Seq<char>, pend: Seq<char>) -> Option<
    int,
> {
    if ts.len() == 0 {
        None
    } else {
        let all = concat_tokens(ts, ts.len() as int);
        match find_sub_spec(all, pstart + seq!['\n'], 0) {
            None => None,
            Some(sp0) => {
                let sp = sp0 + pstart.len() + 1;
                match find_sub_spec(all, pend, 0) {
                    None => None,
                    Some(ep) => match range_scan(ts, sp, ep, ts.len() as int) {
                        None => None,
                        Some(v) => Some(v.0),
                    },
                }
            },
        }
    }
}

/// The uncertainty weight of a token with exactly two alternatives: the
/// spread between the two log-probabilities, weighted toward low-confidence
/// spots by the negated higher one.
pub open spec fn beam_weight(ts: Seq<TokenEntryView>, i: int) -> int {
    let a = ts[i].top_logprobs[0].logprob;
    let b = ts[i].top_logprobs[1].logprob;
    let mx = if a > b {
        a
    } else {
        b
    };
    let mn = if a < b {
        a
    } else {
        b
    };
    (mx - mn) * (-mx)
}

/// The scored positions carrying exactly two alternatives, ascending, among
/// the first `i` tokens.
pub open spec fn beam_positions(
    ts: Seq<TokenEntryView>,
    sp: int,
    ep: int,
    i: int,
) -> Seq<int>
    decreases i,
{
    if i <= 0 {
        Seq::empty()
    } else {
        let f = beam_positions(ts, sp, ep, i - 1);
        if entry_scored(ts, i - 1, sp, ep) && ts[i - 1].top_logprobs.len() == 2 {
            f.push(i - 1)
        } else {
            f
        }
    }
}

/// Candidate order: descending weight, ties by position.
pub open spec fn beam_lt(ts: Seq<TokenEntryView>, a: int, b: int) -> bool {
    beam_weight(ts, a) > beam_weight(ts, b) || (beam_weight(ts, a) == beam_weight(ts, b) && a < b)
}

pub open spec fn insert_sorted_b(ts: Seq<TokenEntryView>, sorted: Seq<int>, x: int) -> Seq<int>
    decreases sorted.len(),
{
    if sorted.len() > 0 && beam_lt(ts, x, sorted.last()) {
        insert_sorted_b(ts, sorted.drop_last(), x).push(sorted.last())
    } else {
        sorted.push(x)
    }
}

pub open spec fn isort_b(ts: Seq<TokenEntryView>, s: Seq<int>) -> Seq<int>
    decreases s.len(),
{
    if s.len() == 0 {
        Seq::empty()
    } else {
        insert_sorted_b(ts, isort_b(ts, s.drop_last()), s.last())
    }
}

/// First alternative whose text differs from the token's own.
pub open spec fn first_other_top(tops: Seq<TopEntryView>, text: Seq<char>, from: int) -> Option<
    int,
>
    decreases tops.len() - from,
{
    if from < 0 || from >= tops.len() {
        None
    } else if tops[from].token != text {
        Some(from)
    } else {
        first_other_top(tops, text, from + 1)
    }
}

/// The alternate continuation derived from position `i`: everything the
/// model produced before the token, then the other alternative's text —
/// unless either text is empty where it matters or ends in white space.
pub open spec fn beam_of(ts: Seq<TokenEntryView>, i: int) -> Option<Seq<char>> {
    let text = ts[i].token;
    if text.len() == 0 || is_space(text.last()) {
        None
    } else {
        match first_other_top(ts[i].top_logprobs, text, 0) {
            None => None,
            Some(t) => {
                let alt = ts[i].top_logprobs[t].token;
                if alt.len() > 0 && is_space(alt.last()) {
                    None
                } else {
                    Some(concat_tokens(ts, i) + alt)
                }
            },
        }
    }
}

/// The beams collected from the ordered candidate list, stopping once the
/// output holds two entries in all.
pub open spec fn beams_from(
    ts: Seq<TokenEntryView>,
    order: Seq<int>,
    j: int,
    cnt: int,
) -> Seq<Seq<char>>
    decreases order.len() - j,
{
    if j < 0 || j >= order.len() {
        Seq::empty()
    } else {
        match beam_of(ts, order[j]) {
            Some(b) => if cnt + 1 >= 2 {
                seq![b]
            } else {
                seq![b] + beams_from(ts, order, j + 1, cnt + 1)
            },
            None => if cnt >= 2 {
                Seq::empty()
            } else {
                beams_from(ts, order, j + 1, cnt)
            },
        }
    }
}

/// Everything the perplexity pass appends for one trace.
pub open spec fn perplexity_out(
    ts: Seq<TokenEntryView>,
    pstart: Seq<char>,
    pend: Seq<char>,
    cnt0: int,
) -> Seq<Seq<char>> {
    if logprob_spec(ts, pstart, pend) is None {
        Seq::empty()
    } else {
        let all = concat_tokens(ts, ts.len() as int);
        let sp = find_sub_spec(all, pstart + seq!['\n'], 0)->Some_0 + pstart.len() + 1;
        let ep = find_sub_spec(all, pend, 0)->Some_0;
        beams_from(
            ts,
            isort_b(ts, beam_positions(ts, sp, ep, ts.len() as int)),
            0,
            cnt0,
        )
    }
}

fn concat_tokens_exec(trace: &Vec<TokenEntry>, upto: usize) -> (r: String)
    requires
        upto <= trace@.len(),
    ensures
        r@ == concat_tokens(trace.deep_view(), upto as int),
{
    let ghost ts = trace.deep_view();
    let mut r = String::new();
    let mut i: usize = 0;
    while i < upto
        invariant
            i <= upto <= trace@.len(),
            ts == trace.deep_view(),
            r@ == concat_tokens(ts, i as int),
        decreases upto - i,
    {
        proof {
            assert(ts[i as int] == trace@[i as int]@);
        }
        r.append(trace[i].token.as_str());
        i += 1;
    }
    r
}

fn beam_weight_exec(t: &TokenEntry) -> (w: i128)
    requires
        t.top_logprobs@.len() == 2,
    ensures
        w == beam_weight(seq![t@], 0),
{
    proof {
        assert(t@.top_logprobs[0] == t.top_logprobs@[0]@);
        assert(t@.top_logprobs[1] == t.top_logprobs@[1]@);
    }
    let a = t.top_logprobs[0].logprob;
    let b = t.top_logprobs[1].logprob;
    let mx = if a > b {
        a
    } else {
        b
    };
    let mn = if a < b {
        a
    } else {
        b
    };
    let spread = (mx as i128) - (mn as i128);
    proof {
        assert(spread * (-(mx as i128)) <= i128::MAX && spread * (-(mx as i128)) >= i128::MIN)
            by (nonlinear_arith)
            requires
                0 <= spread <= u64::MAX as i128,
                i64::MIN as i128 <= mx as i128 <= i64::MAX as i128,
        ;
    }
    spread * (-(mx as i128))
}

/// The alternate continuation for one candidate position, or nothing where
/// the texts rule it out.
fn beam_at(trace: &Vec<TokenEntry>, pos: usize) -> (r: Option<String>)
    requires
        pos < trace@.len(),
    ensures
        match r {
            Some(b) => beam_of(trace.deep_view(), pos as int) == Some(b@),
            None => beam_of(trace.deep_view(), pos as int) is None,
        },
{
    let ghost ts = trace.deep_view();
    proof {
        assert(ts[pos as int] == trace@[pos as int]@);
    }
    let text = trace[pos].token.as_str();
    let tn = text.unicode_len();
    if tn == 0 || char_is_space(text.get_char(tn - 1)) {
        return None;
    }
    let tops = &trace[pos].top_logprobs;
    let m = tops.len();
    let mut t: usize = 0;
    while t < m && str_eq(tops[t].token.as_str(), text)
        invariant
            t <= m,
            m == tops@.len(),
            tops@ == trace@[pos as int].top_logprobs@,
            ts == trace.deep_view(),
            ts[pos as int] == trace@[pos as int]@,
            forall|j: int| 0 <= j < t ==> ts[pos as int].top_logprobs[j].token == text@,
        decreases m - t,
    {
        proof {
            assert(ts[pos as int].top_logprobs[t as int] == tops@[t as int]@);
        }
        t += 1;
    }
    proof {
        lemma_first_other_top(ts[pos as int].top_logprobs, text@, 0);
    }
    if t >= m {
        proof {
            assert(first_other_top(ts[pos as int].top_logprobs, text@, 0) is None);
        }
        return None;
    }
    proof {
        assert(ts[pos as int].top_logprobs[t as int] == tops@[t as int]@);
        assert(first_other_top(ts[pos as int].top_logprobs, text@, 0) == Some(t as int));
    }
    let alt = tops[t].token.as_str();
    let an = alt.unicode_len();
    if an > 0 && char_is_space(alt.get_char(an - 1)) {
        return None;
    }
    let mut b = concat_tokens_exec(trace, pos);
    b.append(alt);
    Some(b)
}

proof fn lemma_first_other_top(tops: Seq<TopEntryView>, text: Seq<char>, from: int)
    requires
        0 <= from,
    ensures
        match first_other_top(tops, text, from) {
            Some(i) => from <= i < tops.len() && tops[i].token != text && (forall|j: int|
                from <= j < i ==> tops[j].token == text),
            None => forall|j: int| from <= j < tops.len() ==> tops[j].token == text,
        },
    decreases tops.len() - from,
{
    if from < tops.len() && tops[from].token == text {
        lemma_first_other_top(tops, text, from + 1);
    }
}

/// Collects the alternate continuations for the ordered candidate
/// positions, appending until the output holds two in all.
fn perplexity_search(trace: &Vec<TokenEntry>, order: &Vec<usize>, perplexity: &mut Vec<String>)
    requires
        forall|p: int| 0 <= p < order@.len() ==> (#[trigger] order@[p]) < trace@.len(),
    ensures
        final(perplexity).deep_view() == old(perplexity).deep_view() + beams_from(
            trace.deep_view(),
            Seq::new(order@.len(), |p: int| order@[p] as int),
            0,
            old(perplexity)@.len() as int,
        ),
{
    let ghost ts = trace.deep_view();
    let ghost ov = Seq::new(order@.len(), |p: int| order@[p] as int);
    let ghost old_deep = perplexity.deep_view();
    let ghost cnt0 = old(perplexity)@.len() as int;
    let n = order.len();
    let mut j: usize = 0;
    let ghost mut added: Seq<Seq<char>> = Seq::empty();
    proof {
        assert(old_deep + added =~= old_deep);
    }
    loop
        invariant_except_break
            j <= n,
            n == ov.len(),
            ov == Seq::new(order@.len(), |p: int| order@[p] as int),
            ts == trace.deep_view(),
            forall|p: int| 0 <= p < order@.len() ==> (#[trigger] order@[p]) < trace@.len(),
            perplexity.deep_view() == old_deep + added,
            perplexity@.len() == cnt0 + added.len(),
            cnt0 == old(perplexity)@.len(),
            beams_from(ts, ov, 0, cnt0) == added + beams_from(
                ts,
                ov,
                j as int,
                cnt0 + added.len(),
            ),
        ensures
            perplexity.deep_view() == old_deep + beams_from(ts, ov, 0, cnt0),
        decreases n - j,
    {
        if j >= n {
            proof {
                assert(beams_from(ts, ov, j as int, cnt0 + added.len()) =~= Seq::<
                    Seq<char>,
                >::empty());
                assert(added + beams_from(ts, ov, j as int, cnt0 + added.len()) =~= added);
            }
            break ;
        }
        let pos = order[j];
        proof {
            assert(ov[j as int] == order@[j as int] as int);
        }
        match beam_at(trace, pos) {
            Some(b) => {
                let ghost bv = b@;
                let ghost old_p = perplexity.deep_view();
                perplexity.push(b);
                proof {
                    assert(perplexity.deep_view() =~= old_p.push(bv));
                    added = added.push(bv);
                    assert(perplexity.deep_view() =~= old_deep + added);
                }
                if perplexity.len() >= 2 {
                    proof {
                        assert(beams_from(ts, ov, j as int, cnt0 + added.len() - 1)
                            =~= seq![bv]);
                        assert(added.drop_last() + seq![bv] =~= added);
                        assert(beams_from(ts, ov, 0, cnt0) =~= added);
                    }
                    break ;
                }
                proof {
                    assert(beams_from(ts, ov, j as int, cnt0 + added.len() - 1) =~= seq![bv]
                        + beams_from(ts, ov, j + 1, cnt0 + added.len()));
                    assert(added.drop_last() + (seq![bv] + beams_from(ts, ov, j + 1, cnt0
                        + added.len())) =~= added + beams_from(ts, ov, j + 1, cnt0
                        + added.len()));
                }
            },
            None => {
                if perplexity.len() >= 2 {
                    proof {
                        assert(beams_from(ts, ov, j as int, cnt0 + added.len()) =~= Seq::<
                            Seq<char>,
                        >::empty());
                        assert(beams_from(ts, ov, 0, cnt0) =~= added);
                    }
                    break ;
                }
            },
        }
        j += 1;
    }
}

proof fn lemma_insert_sorted_b_at(ts: Seq<TokenEntryView>, sorted: Seq<int>, x: int, j: int)
    requires
        0 <= j <= sorted.len(),
        forall|p: int| j <= p < sorted.len() ==> beam_lt(ts, x, #[trigger] sorted[p]),
        j > 0 ==> !beam_lt(ts, x, sorted[j - 1]),
    ensures
        insert_sorted_b(ts, sorted, x) =~= sorted.subrange(0, j) + seq![x] + sorted.subrange(
            j,
            sorted.len() as int,
        ),
    decreases sorted.len(),
{
    if sorted.len() > 0 && beam_lt(ts, x, sorted.last()) {
        assert(j < sorted.len());
        lemma_insert_sorted_b_at(ts, sorted.drop_last(), x, j);
    } else {
        if sorted.len() > 0 {
            assert(j == sorted.len());
        }
        assert(sorted.subrange(0, sorted.len() as int) =~= sorted);
    }
}

/// The trace-wide diagnostic: the position of the single lowest raw
/// log-probability, regardless of the scored range.
pub fn lowest_logprob_position(trace: &Vec<TokenEntry>) -> (r: Option<usize>)
    ensures
        match r {
            Some(p) => raw_scan(trace.deep_view(), trace@.len() as int) matches Some(v) && v.1
                == p as int,
            None => raw_scan(trace.deep_view(), trace@.len() as int) is None,
        },
{
    let ghost ts = trace.deep_view();
    let n = trace.len();
    let mut best: Option<(i64, usize)> = None;
    let mut i: usize = 0;
    while i < n
        invariant
            i <= n,
            n == ts.len(),
            ts == trace.deep_view(),
            match best {
                Some(b) => raw_scan(ts, i as int) == Some((b.0 as int, b.1 as int)),
                None => raw_scan(ts, i as int) is None,
            },
        decreases n - i,
    {
        proof {
            assert(ts[i as int] == trace@[i as int]@);
        }
        let skipped = i == n - 1 && trace[i].token.unicode_len() == 0;
        if !skipped {
            let lp = trace[i].logprob;
            best = match best {
                None => Some((lp, i)),
                Some(b) => if lp < b.0 {
                    Some((lp, i))
                } else {
                    Some(b)
                },
            };
        }
        i += 1;
    }
    match best {
        Some(b) => Some(b.1),
        None => None,
    }
}

/// The text before position `pos` and the text from it on: the two halves a
/// caller logs around a diagnostic separator.
pub fn logprob_diff(trace: &Vec<TokenEntry>, pos: usize) -> (r: (String, String))
    requires
        pos <= trace@.len(),
    ensures
        r.0@ == concat_tokens(trace.deep_view(), pos as int),
        r.0@ + r.1@ == concat_tokens(trace.deep_view(), trace@.len() as int),
{
    let before = concat_tokens_exec(trace, pos);
    let ghost ts = trace.deep_view();
    let n = trace.len();
    let mut after = String::new();
    let mut i = pos;
    while i < n
        invariant
            pos <= i <= n,
            n == ts.len(),
            ts == trace.deep_view(),
            concat_tokens(ts, pos as int) + after@ == concat_tokens(ts, i as int),
        decreases n - i,
    {
        proof {
            assert(ts[i as int] == trace@[i as int]@);
        }
        after.append(trace[i].token.as_str());
        proof {
            assert(concat_tokens(ts, pos as int) + after@ =~= concat_tokens(ts, i + 1));
        }
        i += 1;
    }
    (before, after)
}

/// Computes the confidence value of one response trace and appends its
/// perplexity beams: the lowest log-probability between the patch sentinels,
/// or nothing when a sentinel is missing or no token lies between them — in
/// which case the beams are left untouched.
pub fn logprob(
    trace: &Vec<TokenEntry>,
    patch_start: &str,
    patch_end: &str,
    perplexity: &mut Vec<String>,
) -> (r: Option<i64>)
    ensures
        ({
            let spec_r = logprob_spec(trace.deep_view(), patch_start@, patch_end@);
            match r {
                Some(v) => spec_r == Some(v as int),
                None => spec_r is None,
            }
        }),
        final(perplexity).deep_view() == old(perplexity).deep_view() + perplexity_out(
            trace.deep_view(),
            patch_start@,
            patch_end@,
            old(perplexity)@.len() as int,
        ),
{
    let ghost ts = trace.deep_view();
    let n = trace.len();
    if n == 0 {
        proof {
            assert(old(perplexity).deep_view() + perplexity_out(ts, patch_start@, patch_end@, old(
                perplexity,
            )@.len() as int) =~= old(perplexity).deep_view());
        }
        return None;
    }
    let all = concat_tokens_exec(trace, n);
    let mut needle = String::from_str(patch_start);
    push_char(&mut needle, '\n');
    proof {
        assert(needle@ =~= patch_start@ + seq!['\n']);
    }
    let all_len = all.unicode_len();
    let sp0 = match find_sub(all.as_str(), needle.as_str()) {
        Some(x) => x,
        None => {
            proof {
                assert(old(perplexity).deep_view() + perplexity_out(ts, patch_start@, patch_end@,
                old(perplexity)@.len() as int) =~= old(perplexity).deep_view());
            }
            return None;
        },
    };
    proof {
        lemma_find_sub(all@, needle@, 0);
        assert(sp0 + needle@.len() <= all_len);
    }
    let sp = sp0 + patch_start.unicode_len() + 1;
    let ep = match find_sub(all.as_str(), patch_end) {
        Some(x) => x,
        None => {
            proof {
                assert(old(perplexity).deep_view() + perplexity_out(ts, patch_start@, patch_end@,
                old(perplexity)@.len() as int) =~= old(perplexity).deep_view());
            }
            return None;
        },
    };

    // The scored-range minimum and the candidate positions for the beams.
    let mut best: Option<(i64, usize)> = None;
    let mut cand: Vec<usize> = Vec::new();
    let mut off: usize = 0;
    let mut i: usize = 0;
    proof {
        assert(Seq::new(cand@.len(), |p: int| cand@[p] as int) =~= beam_positions(ts, sp as int,
        ep as int, 0));
    }
    while i < n
        invariant
            i <= n,
            n == ts.len(),
            ts == trace.deep_view(),
            off as int == offset_of(ts, i as int),
            off <= all_len,
            all_len == all@.len(),
            all@ == concat_tokens(ts, n as int),
            match best {
                Some(b) => range_scan(ts, sp as int, ep as int, i as int) == Some(
                    (b.0 as int, b.1 as int),
                ),
                None => range_scan(ts, sp as int, ep as int, i as int) is None,
            },
            forall|p: int| 0 <= p < cand@.len() ==> (#[trigger] cand@[p]) < i,
            Seq::new(cand@.len(), |p: int| cand@[p] as int) =~= beam_positions(ts, sp as int,
            ep as int, i as int),
        decreases n - i,
    {
        proof {
            assert(ts[i as int] == trace@[i as int]@);
            assert(concat_tokens(ts, i + 1) == concat_tokens(ts, i as int) + ts[i as int].token);
            lemma_concat_tokens_len(ts, i + 1, n as int);
        }
        let ghost old_cand = Seq::new(cand@.len(), |p: int| cand@[p] as int);
        let tok_len = trace[i].token.unicode_len();
        let skipped = i == n - 1 && tok_len == 0;
        if !skipped && off >= sp && off < ep {
            let lp = trace[i].logprob;
            best = match best {
                None => Some((lp, i)),
                Some(b) => if lp < b.0 {
                    Some((lp, i))
                } else {
                    Some(b)
                },
            };
            if trace[i].top_logprobs.len() == 2 {
                cand.push(i);
                proof {
                    assert(Seq::new(cand@.len(), |p: int| cand@[p] as int) =~= old_cand.push(
                        i as int,
                    ));
                }
            }
        }
        proof {
            assert(concat_tokens(ts, i + 1) == concat_tokens(ts, i as int) + ts[i as int].token);
        }
        off = off + tok_len;
        i += 1;
    }
    let best = match best {
        Some(b) => b,
        None => {
            proof {
                assert(old(perplexity).deep_view() + perplexity_out(ts, patch_start@, patch_end@,
                old(perplexity)@.len() as int) =~= old(perplexity).deep_view());
            }
            return None;
        },
    };

    // Rank candidates by descending weight, ties by position.
    let ghost cv = Seq::new(cand@.len(), |p: int| cand@[p] as int);
    let mut order: Vec<usize> = Vec::new();
    let cn = cand.len();
    proof {
        assert(cv.subrange(0, 0) =~= Seq::<int>::empty());
        assert(order@.len() == 0);
        assert(Seq::new(order@.len(), |p: int| order@[p] as int) =~= isort_b(ts, cv.subrange(
            0,
            0,
        )));
        lemma_beam_positions_props(ts, sp as int, ep as int, n as int);
    }
    for idx in 0..cn
        invariant
            cn == cand@.len(),
            n == ts.len(),
            ts == trace.deep_view(),
            cv == Seq::new(cand@.len(), |p: int| cand@[p] as int),
            forall|p: int|
                0 <= p < cv.len() ==> 0 <= #[trigger] cv[p] < n && ts[cv[p]].top_logprobs.len()
                    == 2,
            forall|p: int|
                0 <= p < order@.len() ==> (#[trigger] order@[p]) < n && ts[
                    order@[p] as int
                ].top_logprobs.len() == 2,
            Seq::new(order@.len(), |p: int| order@[p] as int) =~= isort_b(ts, cv.subrange(
                0,
                idx as int,
            )),
            order@.len() == idx,
    {
        let x = cand[idx];
        proof {
            assert(cv[idx as int] == cand@[idx as int] as int);
            assert(ts[x as int] == trace@[x as int]@);
            assert(ts[x as int].top_logprobs.len() == trace@[x as int].top_logprobs@.len());
        }
        let ghost ov = Seq::new(order@.len(), |p: int| order@[p] as int);
        let mut at = order.len();
        while at > 0 && beam_lt_exec(trace, x, order[at - 1])
            invariant
                at <= order@.len(),
                n == ts.len(),
                ts == trace.deep_view(),
                x < n,
                ts[x as int].top_logprobs.len() == 2,
                forall|p: int|
                    0 <= p < order@.len() ==> (#[trigger] order@[p]) < n && ts[
                        order@[p] as int
                    ].top_logprobs.len() == 2,
                ov == Seq::new(order@.len(), |p: int| order@[p] as int),
                forall|p: int| at <= p < ov.len() ==> beam_lt(ts, x as int, #[trigger] ov[p]),
            decreases at,
        {
            at -= 1;
        }
        proof {
            lemma_insert_sorted_b_at(ts, ov, x as int, at as int);
        }
        let ghost old_order = order@;
        order.insert(at, x);
        proof {
            assert forall|p: int| 0 <= p < order@.len() implies (Seq::new(order@.len(), |q: int|
            order@[q] as int))[p] == (ov.subrange(0, at as int) + seq![x as int] + ov.subrange(
                at as int,
                ov.len() as int,
            ))[p] by {
                if p < at {
                    assert(order@[p] == old_order[p]);
                } else if p > at {
                    assert(order@[p] == old_order[p - 1]);
                }
            }
            assert(Seq::new(order@.len(), |q: int| order@[q] as int) =~= insert_sorted_b(ts, ov,
            x as int));
            assert(cv.subrange(0, idx + 1).drop_last() =~= cv.subrange(0, idx as int));
            assert(cv.subrange(0, idx + 1).last() == cv[idx as int]);
        }
    }
    proof {
        assert(cv.subrange(0, cn as int) =~= cv);
        assert(cv =~= beam_positions(ts, sp as int, ep as int, n as int));
    }

    perplexity_search(trace, &order, perplexity);
    Some(best.0)
}

/// Exec comparison in the candidate order.
fn beam_lt_exec(trace: &Vec<TokenEntry>, a: usize, b: usize) -> (r: bool)
    requires
        a < trace@.len(),
        b < trace@.len(),
        trace.deep_view()[a as int].top_logprobs.len() == 2,
        trace.deep_view()[b as int].top_logprobs.len() == 2,
    ensures
        r == beam_lt(trace.deep_view(), a as int, b as int),
{
    let ghost ts = trace.deep_view();
    proof {
        assert(ts[a as int] == trace@[a as int]@);
        assert(ts[b as int] == trace@[b as int]@);
    }
    let wa = beam_weight_exec(&trace[a]);
    let wb = beam_weight_exec(&trace[b]);
    proof {
        assert(seq![trace@[a as int]@][0] == ts[a as int]);
        assert(seq![trace@[b as int]@][0] == ts[b as int]);
        lemma_beam_weight_local(ts, a as int);
        lemma_beam_weight_local(ts, b as int);
    }
    wa > wb || (wa == wb && a < b)
}

/// The weight of a position depends only on that entry.
proof fn lemma_beam_weight_local(ts: Seq<TokenEntryView>, i: int)
    requires
        0 <= i < ts.len(),
    ensures
        beam_weight(ts, i) == beam_weight(seq![ts[i]], 0),
{
}

/// Concatenating more tokens never shortens the text.
proof fn lemma_concat_tokens_len(ts: Seq<TokenEntryView>, i: int, n: int)
    requires
        0 <= i <= n <= ts.len(),
    ensures
        concat_tokens(ts, i).len() <= concat_tokens(ts, n).len(),
    decreases n - i,
{
    if i < n {
        lemma_concat_tokens_len(ts, i + 1, n);
    }
}

/// Every candidate position lies inside the trace and carries exactly two
/// alternatives.
proof fn lemma_beam_positions_props(ts: Seq<TokenEntryView>, sp: int, ep: int, i: int)
    requires
        i <= ts.len(),
    ensures
        forall|p: int|
            0 <= p < beam_positions(ts, sp, ep, i).len() ==> 0 <= #[trigger] beam_positions(
                ts,
                sp,
                ep,
                i,
            )[p] < i && ts[beam_positions(ts, sp, ep, i)[p]].top_logprobs.len() == 2,
    decreases i,
{
    if i > 0 {
        lemma_beam_positions_props(ts, sp, ep, i - 1);
        let f = beam_positions(ts, sp, ep, i - 1);
        let cur = beam_positions(ts, sp, ep, i);
        assert forall|p: int|
            0 <= p < cur.len() implies 0 <= #[trigger] cur[p] < i && ts[
            cur[p]
        ].top_logprobs.len() == 2 by {
            if entry_scored(ts, i - 1, sp, ep) && ts[i - 1].top_logprobs.len() == 2 {
                if p < cur.len() - 1 {
                    assert(cur[p] == f[p]);
                } else {
                    assert(cur[p] == i - 1);
                }
            } else {
                assert(cur[p] == f[p]);
            }
        }
    }
}

} // verus!
