//! Consensus engine: grouping equivalent candidate resolutions, merging
//! their metadata, combining model identities, and ranking the groups
//! deterministically.

use vstd::prelude::*;

use crate::strutil::find_char_spec;
use crate::strutil::find_char;
use crate::strutil::rfind_char_spec;
use crate::strutil::rfind_char;
use crate::strutil::str_eq;
use crate::strutil::trim;
use crate::strutil::trim_spec;
use crate::strutil::lex_lt;
use crate::strutil::str_lex_lt;
use crate::types::Candidate;
use crate::types::CandidateView;
use crate::types::GitUtils;
use crate::types::ResolveError;
use crate::types::ResolvedConflict;
use crate::types::ResolvedConflictView;

verus! {

/// A model identity carries a parenthesized variant suffix when it holds a
/// `'('` with a `')'` somewhere after the last one.
pub open spec fn model_has_suffix(m: Seq<char>) -> bool {
    match rfind_char_spec(m, '(') {
        Some(p) => find_char_spec(m, p + 1, ')') is Some,
        None => false,
    }
}

/// The grouping key of a model identity: the trimmed text before the last
/// `'('` when a suffix is present, the whole identity otherwise.
pub open spec fn model_key(m: Seq<char>) -> Seq<char> {
    if model_has_suffix(m) {
        trim_spec(m.subrange(0, rfind_char_spec(m, '(')->Some_0))
    } else {
        m
    }
}

/// The variant suffix of a model identity: the text between the last `'('`
/// and the next `')'`, empty when there is none.
pub open spec fn model_suffix(m: Seq<char>) -> Seq<char> {
    if model_has_suffix(m) {
        let p = rfind_char_spec(m, '(')->Some_0;
        m.subrange(p + 1, find_char_spec(m, p + 1, ')')->Some_0)
    } else {
        Seq::empty()
    }
}

/// First group whose key is `k`.
pub open spec fn group_index(keys: Seq<Seq<char>>, k: Seq<char>, from: int) -> Option<int>
    decreases keys.len() - from,
{
    if from < 0 || from >= keys.len() {
        None
    } else if keys[from] == k {
        Some(from)
    } else {
        group_index(keys, k, from + 1)
    }
}

pub proof fn lemma_group_index(keys: Seq<Seq<char>>, k: Seq<char>, from: int)
    requires
        0 <= from,
    ensures
        match group_index(keys, k, from) {
            Some(i) => from <= i < keys.len() && keys[i] == k && (forall|j: int|
                from <= j < i ==> keys[j] != k),
            None => forall|j: int| from <= j < keys.len() ==> keys[j] != k,
        },
    decreases keys.len() - from,
{
    if from < keys.len() && keys[from] != k {
        lemma_group_index(keys, k, from + 1);
    }
}

/// One step of grouping model identities by key: a plain identity carries
/// the empty suffix; `None` exactly when the identity repeats a suffix its
/// key already carries — including a repeated plain name — the invariant
/// violation the consensus step fails loudly on.
pub open spec fn add_model(
    keys: Seq<Seq<char>>,
    sufs: Seq<Seq<Seq<char>>>,
    m: Seq<char>,
) -> Option<(Seq<Seq<char>>, Seq<Seq<Seq<char>>>)> {
    let k = model_key(m);
    let s = model_suffix(m);
    match group_index(keys, k, 0) {
        None => Some((keys.push(k), sufs.push(seq![s]))),
        Some(g) => {
            if sufs[g].contains(s) {
                None
            } else {
                Some((keys, sufs.update(g, sufs[g].push(s))))
            }
        },
    }
}

/// Grouping a whole list of model identities, in order.
pub open spec fn build_groups(models: Seq<Seq<char>>) -> Option<(
    Seq<Seq<char>>,
    Seq<Seq<Seq<char>>>,
)>
    decreases models.len(),
{
    if models.len() == 0 {
        Some((Seq::empty(), Seq::empty()))
    } else {
        match build_groups(models.drop_last()) {
            None => None,
            Some(g) => add_model(g.0, g.1, models.last()),
        }
    }
}

proof fn lemma_build_groups_none(models: Seq<Seq<char>>, i: int)
    requires
        0 <= i <= models.len(),
        build_groups(models.subrange(0, i)) is None,
    ensures
        build_groups(models) is None,
    decreases models.len() - i,
{
    if i < models.len() {
        assert(models.subrange(0, i + 1).drop_last() =~= models.subrange(0, i));
        assert(build_groups(models.subrange(0, i + 1)) is None);
        lemma_build_groups_none(models, i + 1);
    } else {
        assert(models.subrange(0, models.len() as int) =~= models);
    }
}

pub open spec fn join_with(parts: Seq<Seq<char>>, sep: Seq<char>) -> Seq<char>
    decreases parts.len(),
{
    if parts.len() == 0 {
        Seq::empty()
    } else if parts.len() == 1 {
        parts[0]
    } else {
        join_with(parts.drop_last(), sep) + sep + parts.last()
    }
}

/// How one key renders: the key alone when its only suffix is empty, else
/// `key (s1|s2|…)` in first-seen order.
pub open spec fn render_group(key: Seq<char>, sufs: Seq<Seq<char>>) -> Seq<char> {
    if sufs.len() == 1 && sufs[0].len() == 0 {
        key
    } else {
        key + seq![' ', '('] + join_with(sufs, seq!['|']) + seq![')']
    }
}

pub open spec fn render_groups(keys: Seq<Seq<char>>, sufs: Seq<Seq<Seq<char>>>) -> Seq<char> {
    join_with(Seq::new(keys.len(), |g: int| render_group(keys[g], sufs[g])), seq![',', ' '])
}

/// The combined display identity of a group of model identities, or `None`
/// on a duplicated suffix.
pub open spec fn combine_model_names_spec(models: Seq<Seq<char>>) -> Option<Seq<char>> {
    match build_groups(models) {
        None => None,
        Some(g) => Some(render_groups(g.0, g.1)),
    }
}

fn split_model_name(m: &str) -> (r: (String, String))
    ensures
        r.0@ == model_key(m@),
        r.1@ == model_suffix(m@),
{
    let n = m.unicode_len();
    let p = match rfind_char(m, '(') {
        Some(p) => p,
        None => {
            return (String::from_str(m), String::new());
        },
    };
    let q = match find_char(m, p + 1, ')') {
        Some(q) => q,
        None => {
            return (String::from_str(m), String::new());
        },
    };
    proof {
        crate::strutil::lemma_find_char(m@, p + 1, ')');
    }
    let key = trim(m.substring_char(0, p));
    let suf = String::from_str(m.substring_char(p + 1, q));
    (key, suf)
}

impl GitUtils {
    /// Combines the model identities of one consensus group: identities are
    /// grouped by the prefix before their last `'('`, a plain identity
    /// carrying the empty suffix under its own name; each prefix renders
    /// once, with its suffixes joined by `'|'` in first-seen order, prefixes
    /// joined by `", "` in first-seen order. A repeated suffix for one
    /// prefix — including a repeated plain name — is an invariant violation
    /// and fails, whatever order the identities arrive in.
    pub fn combine_model_names(models: &Vec<String>) -> (r: Result<String, ResolveError>)
        ensures
            match r {
                Ok(s) => combine_model_names_spec(models.deep_view()) == Some(s@),
                Err(e) => combine_model_names_spec(models.deep_view()) is None && e
                    == ResolveError::DuplicateSuffix,
            },
    {
        let ghost mv = models.deep_view();
        let mut keys: Vec<String> = Vec::new();
        let mut sufs: Vec<Vec<String>> = Vec::new();
        let n = models.len();
        let mut i: usize = 0;
        proof {
            assert(mv.subrange(0, 0) =~= Seq::<Seq<char>>::empty());
            assert(keys.deep_view() =~= Seq::<Seq<char>>::empty());
            assert(sufs.deep_view() =~= Seq::<Seq<Seq<char>>>::empty());
        }
        while i < n
            invariant
                i <= n,
                n == mv.len(),
                mv == models.deep_view(),
                sufs@.len() == keys@.len(),
                forall|j: int| 0 <= j < sufs@.len() ==> #[trigger] sufs.deep_view()[j].len() >= 1,
                build_groups(mv.subrange(0, i as int)) == Some(
                    (keys.deep_view(), sufs.deep_view()),
                ),
            decreases n - i,
        {
            let ghost prefix = mv.subrange(0, i as int);
            let ghost prefix1 = mv.subrange(0, i + 1);
            let ghost kd = keys.deep_view();
            let ghost sd = sufs.deep_view();
            proof {
                assert(prefix1.drop_last() =~= prefix);
                assert(prefix1.last() == mv[i as int]);
                assert(mv[i as int] == models@[i as int]@);
            }
            let (key, suf) = split_model_name(models[i].as_str());
            let mut g: usize = 0;
            let gn = keys.len();
            while g < gn && !str_eq(keys[g].as_str(), key.as_str())
                invariant
                    g <= gn,
                    gn == keys@.len(),
                    kd == keys.deep_view(),
                    forall|j: int| 0 <= j < g ==> kd[j] != key@,
                decreases gn - g,
            {
                proof {
                    assert(kd[g as int] == keys@[g as int]@);
                }
                g += 1;
            }
            proof {
                lemma_group_index(kd, key@, 0);
            }
            if g == gn {
                proof {
                    assert(group_index(kd, key@, 0) is None);
                }
                let mut one: Vec<String> = Vec::new();
                one.push(suf);
                keys.push(key);
                sufs.push(one);
                proof {
                    assert(keys.deep_view() =~= kd.push(model_key(mv[i as int])));
                    assert(one.deep_view() =~= seq![model_suffix(mv[i as int])]);
                    assert(sufs.deep_view() =~= sd.push(seq![model_suffix(mv[i as int])]));
                    assert(build_groups(prefix1) == Some((keys.deep_view(), sufs.deep_view())));
                }
            } else {
                proof {
                    assert(kd[g as int] == keys@[g as int]@);
                    assert(group_index(kd, key@, 0) == Some(g as int));
                }
                let en = sufs[g].len();
                let mut e: usize = 0;
                while e < en && !str_eq(sufs[g][e].as_str(), suf.as_str())
                    invariant
                        e <= en,
                        g < sufs@.len(),
                        en == sufs@[g as int]@.len(),
                        sd == sufs.deep_view(),
                        forall|j: int| 0 <= j < e ==> sd[g as int][j] != suf@,
                    decreases en - e,
                {
                    proof {
                        assert(sd[g as int][e as int] == sufs@[g as int]@[e as int]@);
                    }
                    e += 1;
                }
                if e < en {
                    proof {
                        assert(sd[g as int][e as int] == sufs@[g as int]@[e as int]@);
                        assert(sd[g as int].contains(suf@));
                        assert(add_model(kd, sd, mv[i as int]) is None);
                        assert(build_groups(prefix1) is None);
                        lemma_build_groups_none(mv, i + 1);
                    }
                    return Err(ResolveError::DuplicateSuffix);
                }
                proof {
                    if sd[g as int].contains(suf@) {
                        let w = choose|w: int|
                            0 <= w < sd[g as int].len() && sd[g as int][w] == suf@;
                        assert(false);
                    }
                }
                let ghost vold = sufs@;
                let mut entry = sufs.remove(g);
                let ghost entry0 = entry.deep_view();
                proof {
                    assert(entry0 == sd[g as int]);
                }
                entry.push(suf);
                proof {
                    assert(entry.deep_view() =~= entry0.push(suf@));
                }
                sufs.insert(g, entry);
                proof {
                    let target = sd.update(g as int, sd[g as int].push(model_suffix(
                        mv[i as int],
                    )));
                    assert forall|j: int| 0 <= j < sufs@.len() implies sufs.deep_view()[j]
                        == target[j] by {
                        if j < g {
                            assert(sufs@[j] == vold[j]);
                        } else if j > g {
                            assert(sufs@[j] == vold[j]);
                        }
                    }
                    assert(sufs.deep_view() =~= target);
                    assert(keys.deep_view() == kd);
                    assert(build_groups(prefix1) == Some((keys.deep_view(), sufs.deep_view())));
                }
            }
            i += 1;
        }
        proof {
            assert(mv.subrange(0, n as int) =~= mv);
        }
        // Render the groups in first-seen order.
        let gn = keys.len();
        let mut out = String::new();
        let mut g: usize = 0;
        let ghost rendered = Seq::new(keys.deep_view().len(), |j: int| render_group(
            keys.deep_view()[j],
            sufs.deep_view()[j],
        ));
        while g < gn
            invariant
                g <= gn,
                gn == keys@.len(),
                sufs@.len() == gn,
                rendered == Seq::new(keys.deep_view().len(), |j: int| render_group(
                    keys.deep_view()[j],
                    sufs.deep_view()[j],
                )),
                forall|j: int| 0 <= j < sufs@.len() ==> #[trigger] sufs.deep_view()[j].len() >= 1,
                out@ == join_with(rendered.subrange(0, g as int), seq![',', ' ']),
            decreases gn - g,
        {
            proof {
                reveal_strlit(", ");
                assert(", "@ =~= seq![',', ' ']);
            }
            if g > 0 {
                out.append(", ");
            }
            proof {
                assert(sufs.deep_view()[g as int] == sufs@[g as int].deep_view());
                assert(sufs@[g as int].deep_view().len() == sufs@[g as int]@.len());
            }
            let piece = render_one_group(&keys[g], &sufs[g]);
            out.append(piece.as_str());
            proof {
                let pre = rendered.subrange(0, g as int);
                let cur = rendered.subrange(0, g + 1);
                assert(cur.drop_last() =~= pre);
                assert(cur.last() == rendered[g as int]);
                assert(keys.deep_view()[g as int] == keys@[g as int]@);
                assert(sufs.deep_view()[g as int] == sufs@[g as int].deep_view());
                if g == 0 {
                    assert(pre.len() == 0);
                    assert(cur.len() == 1);
                    assert(out@ =~= rendered[g as int]);
                }
            }
            g += 1;
        }
        proof {
            assert(rendered.subrange(0, gn as int) =~= rendered);
        }
        Ok(out)
    }
}

fn render_one_group(key: &String, sufs: &Vec<String>) -> (r: String)
    requires
        sufs@.len() >= 1,
    ensures
        r@ == render_group(key@, sufs.deep_view()),
{
    proof {
        reveal_strlit(" (");
        reveal_strlit(")");
        assert(" ("@ =~= seq![' ', '(']);
        assert(")"@ =~= seq![')']);
    }
    if sufs.len() == 1 && sufs[0].unicode_len() == 0 {
        proof {
            assert(sufs.deep_view()[0] == sufs@[0]@);
        }
        return key.clone();
    }
    let mut out = key.clone();
    out.append(" (");
    let n = sufs.len();
    let mut i: usize = 0;
    let ghost sd = sufs.deep_view();
    while i < n
        invariant
            i <= n,
            n == sufs@.len(),
            sd == sufs.deep_view(),
            i == 0 ==> out@ == key@ + seq![' ', '('],
            i > 0 ==> out@ == key@ + seq![' ', '('] + join_with(sd.subrange(0, i as int), seq!['|']),
        decreases n - i,
    {
        proof {
            reveal_strlit("|");
            assert("|"@ =~= seq!['|']);
        }
        if i > 0 {
            out.append("|");
        }
        out.append(sufs[i].as_str());
        proof {
            let pre = sd.subrange(0, i as int);
            let cur = sd.subrange(0, i + 1);
            assert(cur.drop_last() =~= pre);
            assert(cur.last() == sd[i as int]);
            assert(sd[i as int] == sufs@[i as int]@);
            if i == 0 {
                assert(cur.len() == 1);
                assert(join_with(cur, seq!['|']) == sd[0]);
            }
        }
        i += 1;
    }
    out.append(")");
    proof {
        assert(sd.subrange(0, n as int) =~= sd);
        assert(out@ == key@ + seq![' ', '('] + join_with(sd, seq!['|']) + seq![')']);
    }
    out
}


/// The equivalence key of a candidate resolution: same file, same line,
/// byte-identical resolved text.
pub open spec fn rc_key(r: ResolvedConflictView) -> (Seq<char>, int, Seq<char>) {
    (r.conflict.file_path, r.conflict.start_line, r.resolved_version)
}

/// The distinct keys of a run, in first-seen order.
pub open spec fn distinct_keys(s: Seq<ResolvedConflictView>) -> Seq<(Seq<char>, int, Seq<char>)>
    decreases s.len(),
{
    if s.len() == 0 {
        Seq::empty()
    } else {
        let ks = distinct_keys(s.drop_last());
        if ks.contains(rc_key(s.last())) {
            ks
        } else {
            ks.push(rc_key(s.last()))
        }
    }
}

/// The indices of the candidates carrying key `k`, ascending.
pub open spec fn key_members(s: Seq<ResolvedConflictView>, k: (Seq<char>, int, Seq<char>)) -> Seq<
    int,
>
    decreases s.len(),
{
    if s.len() == 0 {
        Seq::empty()
    } else {
        let m = key_members(s.drop_last(), k);
        if rc_key(s.last()) == k {
            m.push(s.len() - 1)
        } else {
            m
        }
    }
}

pub proof fn lemma_key_members(s: Seq<ResolvedConflictView>, k: (Seq<char>, int, Seq<char>))
    ensures
        forall|p: int|
            0 <= p < key_members(s, k).len() ==> 0 <= #[trigger] key_members(s, k)[p] < s.len()
                && rc_key(s[key_members(s, k)[p]]) == k,
        forall|p: int, q: int|
            0 <= p < q < key_members(s, k).len() ==> #[trigger] key_members(s, k)[p]
                < #[trigger] key_members(s, k)[q],
        forall|j: int| 0 <= j < s.len() && rc_key(s[j]) == k ==> key_members(s, k).contains(j),
    decreases s.len(),
{
    if s.len() > 0 {
        lemma_key_members(s.drop_last(), k);
        let front = s.drop_last();
        let ms = key_members(s, k);
        let mf = key_members(front, k);
        assert(forall|j: int| 0 <= j < front.len() ==> front[j] == s[j]);
        assert forall|j: int| 0 <= j < s.len() && rc_key(s[j]) == k implies ms.contains(j) by {
            if j < s.len() - 1 {
                assert(mf.contains(j));
                let p = choose|p: int| 0 <= p < mf.len() && mf[p] == j;
                if rc_key(s.last()) == k {
                    assert(ms[p] == j);
                } else {
                    assert(ms[p] == j);
                }
            } else {
                assert(rc_key(s.last()) == k);
                assert(ms.last() == j);
            }
        }
    }
}

/// Keys of a prefix are exactly the keys that occur in it.
pub proof fn lemma_distinct_keys_complete(s: Seq<ResolvedConflictView>)
    ensures
        forall|k: (Seq<char>, int, Seq<char>)| #[trigger]
            distinct_keys(s).contains(k) <==> exists|j: int| 0 <= j < s.len() && rc_key(s[j]) == k,
    decreases s.len(),
{
    if s.len() > 0 {
        lemma_distinct_keys_complete(s.drop_last());
        let front = s.drop_last();
        assert(forall|j: int| 0 <= j < front.len() ==> front[j] == s[j]);
        assert forall|k: (Seq<char>, int, Seq<char>)| #[trigger]
            distinct_keys(s).contains(k) implies exists|j: int|
            0 <= j < s.len() && rc_key(s[j]) == k by {
            if distinct_keys(front).contains(k) {
                let j = choose|j: int| 0 <= j < front.len() && rc_key(front[j]) == k;
                assert(rc_key(s[j]) == k);
            } else {
                assert(k == rc_key(s.last()));
                assert(rc_key(s[s.len() - 1]) == k);
            }
        }
        assert forall|k: (Seq<char>, int, Seq<char>)|
            exists|j: int| 0 <= j < s.len() && rc_key(s[j]) == k implies #[trigger] distinct_keys(
            s,
        ).contains(k) by {
            let j = choose|j: int| 0 <= j < s.len() && rc_key(s[j]) == k;
            if j < s.len() - 1 {
                assert(rc_key(front[j]) == k);
                assert(distinct_keys(front).contains(k));
                if !distinct_keys(s).contains(k) {
                    let p = choose|p: int|
                        0 <= p < distinct_keys(front).len() && distinct_keys(front)[p] == k;
                    if distinct_keys(front).contains(rc_key(s.last())) {
                        assert(distinct_keys(s)[p] == k);
                    } else {
                        assert(distinct_keys(s)[p] == k);
                    }
                    assert(false);
                }
            } else {
                if distinct_keys(front).contains(rc_key(s.last())) {
                    let p = choose|p: int|
                        0 <= p < distinct_keys(front).len() && distinct_keys(front)[p] == rc_key(
                            s.last(),
                        );
                    assert(distinct_keys(s)[p] == k);
                } else {
                    assert(distinct_keys(s).last() == k);
                }
            }
        }
    }
}

/// The model identities of the group members, in candidate order.
pub open spec fn members_models(s: Seq<ResolvedConflictView>, ms: Seq<int>) -> Seq<Seq<char>>
    decreases ms.len(),
{
    if ms.len() == 0 {
        Seq::empty()
    } else {
        members_models(s, ms.drop_last()).push(s[ms.last()].model)
    }
}

pub open spec fn members_max_duration(s: Seq<ResolvedConflictView>, ms: Seq<int>) -> int
    decreases ms.len(),
{
    if ms.len() == 0 {
        0
    } else {
        let m = members_max_duration(s, ms.drop_last());
        if s[ms.last()].duration > m {
            s[ms.last()].duration
        } else {
            m
        }
    }
}

pub open spec fn members_min_endpoint(s: Seq<ResolvedConflictView>, ms: Seq<int>) -> int
    decreases ms.len(),
{
    if ms.len() == 0 {
        usize::MAX as int
    } else {
        let m = members_min_endpoint(s, ms.drop_last());
        if s[ms.last()].endpoint < m {
            s[ms.last()].endpoint
        } else {
            m
        }
    }
}

pub open spec fn members_tokens_sum(s: Seq<ResolvedConflictView>, ms: Seq<int>) -> int
    decreases ms.len(),
{
    if ms.len() == 0 {
        0
    } else {
        members_tokens_sum(s, ms.drop_last()) + match s[ms.last()].total_tokens {
            Some(t) => t,
            None => 0,
        }
    }
}

pub open spec fn members_tokens_cnt(s: Seq<ResolvedConflictView>, ms: Seq<int>) -> int
    decreases ms.len(),
{
    if ms.len() == 0 {
        0
    } else {
        members_tokens_cnt(s, ms.drop_last()) + if s[ms.last()].total_tokens is Some {
            1int
        } else {
            0int
        }
    }
}

pub open spec fn members_logprob_sum(s: Seq<ResolvedConflictView>, ms: Seq<int>) -> int
    decreases ms.len(),
{
    if ms.len() == 0 {
        0
    } else {
        members_logprob_sum(s, ms.drop_last()) + match s[ms.last()].logprob {
            Some(l) => l,
            None => 0,
        }
    }
}

pub open spec fn members_logprob_cnt(s: Seq<ResolvedConflictView>, ms: Seq<int>) -> int
    decreases ms.len(),
{
    if ms.len() == 0 {
        0
    } else {
        members_logprob_cnt(s, ms.drop_last()) + if s[ms.last()].logprob is Some {
            1int
        } else {
            0int
        }
    }
}

/// The flat records of the group members, in candidate order.
pub open spec fn members_flat(s: Seq<ResolvedConflictView>, ms: Seq<int>) -> Seq<CandidateView>
    decreases ms.len(),
{
    if ms.len() == 0 {
        Seq::empty()
    } else {
        members_flat(s, ms.drop_last()).push(s[ms.last()].flat())
    }
}

/// The merged representative of one consensus group: worst-case duration,
/// mean token cost and confidence over the members that report one, the
/// best endpoint rank, and the full member list.
pub open spec fn merge_group(
    s: Seq<ResolvedConflictView>,
    k: (Seq<char>, int, Seq<char>),
    ms: Seq<int>,
) -> ResolvedConflictView {
    ResolvedConflictView {
        conflict: s[ms[0]].conflict,
        resolved_version: k.2,
        model: combine_model_names_spec(members_models(s, ms))->Some_0,
        duration: members_max_duration(s, ms),
        total_tokens: if members_tokens_cnt(s, ms) == 0 {
            None
        } else {
            Some(members_tokens_sum(s, ms) / members_tokens_cnt(s, ms))
        },
        logprob: if members_logprob_cnt(s, ms) == 0 {
            None
        } else {
            Some(members_logprob_sum(s, ms) / members_logprob_cnt(s, ms))
        },
        endpoint: members_min_endpoint(s, ms),
        deduplicated_conflicts: members_flat(s, ms),
    }
}

/// What stops a group from merging: a duplicated model-name suffix, or
/// members whose conflicts are not structurally equal.
pub open spec fn group_error(s: Seq<ResolvedConflictView>, ms: Seq<int>) -> Option<ResolveError> {
    if combine_model_names_spec(members_models(s, ms)) is None {
        Some(ResolveError::DuplicateSuffix)
    } else if exists|p: int| 0 <= p < ms.len() && s[#[trigger] ms[p]].conflict != s[ms[0]].conflict {
        Some(ResolveError::ConflictMismatch)
    } else {
        None
    }
}

/// The first group, in first-seen key order, that cannot merge.
pub open spec fn first_group_error(s: Seq<ResolvedConflictView>, g: int) -> Option<ResolveError>
    decreases distinct_keys(s).len() - g,
{
    if g < 0 || g >= distinct_keys(s).len() {
        None
    } else {
        match group_error(s, key_members(s, distinct_keys(s)[g])) {
            Some(e) => Some(e),
            None => first_group_error(s, g + 1),
        }
    }
}

/// All merged groups, in first-seen key order.
pub open spec fn merged_seq(s: Seq<ResolvedConflictView>) -> Seq<ResolvedConflictView> {
    Seq::new(distinct_keys(s).len(), |g: int| merge_group(s, distinct_keys(s)[g], key_members(
        s,
        distinct_keys(s)[g],
    )))
}

/// The deterministic ranking: file path, then line, then stronger agreement
/// first, then the better endpoint rank.
pub open spec fn rank_lt(a: ResolvedConflictView, b: ResolvedConflictView) -> bool {
    lex_lt(a.conflict.file_path, b.conflict.file_path) || (a.conflict.file_path
        == b.conflict.file_path && (a.conflict.start_line < b.conflict.start_line || (
    a.conflict.start_line == b.conflict.start_line && (a.deduplicated_conflicts.len()
        > b.deduplicated_conflicts.len() || (a.deduplicated_conflicts.len()
        == b.deduplicated_conflicts.len() && a.endpoint < b.endpoint)))))
}

/// Stable insertion: the new element goes after every element it does not
/// strictly precede.
pub open spec fn insert_sorted(
    sorted: Seq<ResolvedConflictView>,
    x: ResolvedConflictView,
) -> Seq<ResolvedConflictView>
    decreases sorted.len(),
{
    if sorted.len() > 0 && rank_lt(x, sorted.last()) {
        insert_sorted(sorted.drop_last(), x).push(sorted.last())
    } else {
        sorted.push(x)
    }
}

/// Stable insertion sort by the ranking order.
pub open spec fn isort(s: Seq<ResolvedConflictView>) -> Seq<ResolvedConflictView>
    decreases s.len(),
{
    if s.len() == 0 {
        Seq::empty()
    } else {
        insert_sorted(isort(s.drop_last()), s.last())
    }
}

/// What deduplication yields: the first group error, or the merged groups
/// in ranking order.
pub open spec fn dedup_spec(s: Seq<ResolvedConflictView>) -> Result<
    Seq<ResolvedConflictView>,
    ResolveError,
> {
    match first_group_error(s, 0) {
        Some(e) => Err(e),
        None => Ok(isort(merged_seq(s))),
    }
}

fn same_key(a: &ResolvedConflict, b: &ResolvedConflict) -> (r: bool)
    ensures
        r == (rc_key(a@) == rc_key(b@)),
{
    let r = a.conflict.file_path == b.conflict.file_path && a.conflict.start_line
        == b.conflict.start_line && a.resolved_version == b.resolved_version;
    proof {
        if r {
            assert(rc_key(a@) == rc_key(b@));
        } else {
            assert(rc_key(a@).0 == a@.conflict.file_path);
            assert(rc_key(a@) != rc_key(b@));
        }
    }
    r
}

fn rank_before(a: &ResolvedConflict, b: &ResolvedConflict) -> (r: bool)
    ensures
        r == rank_lt(a@, b@),
{
    proof {
        assert(a@.deduplicated_conflicts.len() == a.deduplicated_conflicts@.len());
        assert(b@.deduplicated_conflicts.len() == b.deduplicated_conflicts@.len());
    }
    if str_lex_lt(a.conflict.file_path.as_str(), b.conflict.file_path.as_str()) {
        return true;
    }
    if !str_eq(a.conflict.file_path.as_str(), b.conflict.file_path.as_str()) {
        return false;
    }
    if a.conflict.start_line != b.conflict.start_line {
        return a.conflict.start_line < b.conflict.start_line;
    }
    if a.deduplicated_conflicts.len() != b.deduplicated_conflicts.len() {
        return a.deduplicated_conflicts.len() > b.deduplicated_conflicts.len();
    }
    a.endpoint < b.endpoint
}

proof fn lemma_insert_sorted_at(
    sorted: Seq<ResolvedConflictView>,
    x: ResolvedConflictView,
    j: int,
)
    requires
        0 <= j <= sorted.len(),
        forall|p: int| j <= p < sorted.len() ==> rank_lt(x, #[trigger] sorted[p]),
        j > 0 ==> !rank_lt(x, sorted[j - 1]),
    ensures
        insert_sorted(sorted, x) =~= sorted.subrange(0, j) + seq![x] + sorted.subrange(
            j,
            sorted.len() as int,
        ),
    decreases sorted.len(),
{
    if sorted.len() > 0 && rank_lt(x, sorted.last()) {
        assert(j < sorted.len());
        lemma_insert_sorted_at(sorted.drop_last(), x, j);
        assert(sorted.drop_last().subrange(0, j) =~= sorted.subrange(0, j));
        assert(sorted.drop_last().subrange(j, sorted.len() - 1) =~= sorted.subrange(
            j,
            sorted.len() - 1,
        ));
    } else {
        if sorted.len() > 0 {
            assert(j == sorted.len());
        }
        assert(sorted.subrange(0, sorted.len() as int) =~= sorted);
    }
}

impl GitUtils {
    /// Groups equivalent candidates, merges each group's metadata, and
    /// returns the merged groups ordered by file, line, strength of
    /// agreement and endpoint rank. Fails loudly when one group carries a
    /// duplicated model-name suffix or structurally different conflicts.
    pub fn deduplicate_conflicts(conflicts: &Vec<ResolvedConflict>) -> (r: Result<
        Vec<ResolvedConflict>,
        ResolveError,
    >)
        ensures
            match r {
                Ok(v) => dedup_spec(conflicts.deep_view()) == Ok::<
                    Seq<ResolvedConflictView>,
                    ResolveError,
                >(v.deep_view()),
                Err(e) => dedup_spec(conflicts.deep_view()) == Err::<
                    Seq<ResolvedConflictView>,
                    ResolveError,
                >(e),
            },
    {
        let ghost s = conflicts.deep_view();
        let n = conflicts.len();

        // First-seen distinct keys, as the index of their first candidate.
        let mut reps: Vec<usize> = Vec::new();
        let mut i: usize = 0;
        proof {
            assert(s.subrange(0, 0) =~= Seq::<ResolvedConflictView>::empty());
        }
        while i < n
            invariant
                i <= n,
                n == s.len(),
                s == conflicts.deep_view(),
                reps@.len() == distinct_keys(s.subrange(0, i as int)).len(),
                forall|g: int|
                    0 <= g < reps@.len() ==> #[trigger] reps@[g] < i && rc_key(
                        s[reps@[g] as int],
                    ) == distinct_keys(s.subrange(0, i as int))[g],
                forall|g: int, j: int|
                    #![trigger reps@[g], rc_key(s[j])]
                    0 <= g < reps@.len() && 0 <= j < reps@[g] ==> rc_key(s[j]) != rc_key(
                        s[reps@[g] as int],
                    ),
            decreases n - i,
        {
            let ghost pre = s.subrange(0, i as int);
            let ghost pre1 = s.subrange(0, i + 1);
            proof {
                assert(pre1.drop_last() =~= pre);
                assert(pre1.last() == s[i as int]);
            }
            let gn = reps.len();
            let mut g: usize = 0;
            while g < gn && !same_key(&conflicts[reps[g]], &conflicts[i])
                invariant
                    g <= gn,
                    gn == reps@.len(),
                    n == s.len(),
                    i < n,
                    s == conflicts.deep_view(),
                    forall|x: int| 0 <= x < gn ==> #[trigger] reps@[x] < n,
                    forall|x: int|
                        0 <= x < g ==> rc_key(s[#[trigger] reps@[x] as int]) != rc_key(
                            s[i as int],
                        ),
                decreases gn - g,
            {
                proof {
                    assert(conflicts@[reps@[g as int] as int]@ == s[reps@[g as int] as int]);
                    assert(conflicts@[i as int]@ == s[i as int]);
                }
                g += 1;
            }
            proof {
                lemma_distinct_keys_complete(pre);
            }
            if g == gn {
                proof {
                    if distinct_keys(pre).contains(rc_key(s[i as int])) {
                        let j = choose|j: int| 0 <= j < i && rc_key(s[j]) == rc_key(s[i as int]);
                        let ghost dk = distinct_keys(pre);
                        // the key occurs at j < i, so some rep holds it
                        let p = choose|p: int| 0 <= p < dk.len() && dk[p] == rc_key(s[i as int]);
                        assert(rc_key(s[reps@[p] as int]) == rc_key(s[i as int]));
                        assert(false);
                    }
                    assert(distinct_keys(pre1) =~= distinct_keys(pre).push(rc_key(s[i as int])));
                }
                reps.push(i);
                proof {
                    assert forall|x: int, j: int|
                        #![trigger reps@[x], rc_key(s[j])]
                        0 <= x < reps@.len() && 0 <= j < reps@[x] implies rc_key(s[j]) != rc_key(
                        s[reps@[x] as int],
                    ) by {
                        if x < reps@.len() - 1 {
                        } else {
                            assert(reps@[x] == i);
                            if rc_key(s[j]) == rc_key(s[i as int]) {
                                assert(0 <= j < pre.len() && rc_key(pre[j]) == rc_key(
                                    s[i as int],
                                ));
                                assert(distinct_keys(pre).contains(rc_key(s[i as int])));
                                assert(false);
                            }
                        }
                    }
                }
            } else {
                proof {
                    assert(conflicts@[reps@[g as int] as int]@ == s[reps@[g as int] as int]);
                    assert(conflicts@[i as int]@ == s[i as int]);
                    assert(rc_key(s[reps@[g as int] as int]) == rc_key(s[i as int]));
                    assert(distinct_keys(pre).contains(rc_key(s[i as int]))) by {
                        assert(rc_key(pre[reps@[g as int] as int]) == rc_key(s[i as int]));
                    }
                    assert(distinct_keys(pre1) =~= distinct_keys(pre));
                }
            }
            i += 1;
        }
        proof {
            assert(s.subrange(0, n as int) =~= s);
        }
        let ghost dk = distinct_keys(s);

        // Merge each group, in first-seen key order.
        let gn = reps.len();
        let mut merged: Vec<ResolvedConflict> = Vec::new();
        let mut g: usize = 0;
        while g < gn
            invariant
                g <= gn,
                gn == reps@.len(),
                n == s.len(),
                s == conflicts.deep_view(),
                dk == distinct_keys(s),
                reps@.len() == dk.len(),
                forall|x: int|
                    0 <= x < reps@.len() ==> #[trigger] reps@[x] < n && rc_key(
                        s[reps@[x] as int],
                    ) == dk[x],
                forall|x: int, j: int|
                    #![trigger reps@[x], rc_key(s[j])]
                    0 <= x < reps@.len() && 0 <= j < reps@[x] ==> rc_key(s[j]) != rc_key(
                        s[reps@[x] as int],
                    ),
                first_group_error(s, 0) == first_group_error(s, g as int),
                merged.deep_view() =~= merged_seq(s).subrange(0, g as int),
            decreases gn - g,
        {
            let ri = reps[g];
            let ghost k = dk[g as int];
            let ghost ms = key_members(s, k);
            proof {
                lemma_key_members(s, k);
                assert(conflicts@[ri as int]@ == s[ri as int]);
                assert(rc_key(s[ri as int]) == k);
                assert(ms.contains(ri as int));
                // the representative is the least member
                let p = choose|p: int| 0 <= p < ms.len() && ms[p] == ri as int;
                if p > 0 {
                    assert(ms[0] < ms[p]);
                    assert(rc_key(s[ms[0]]) == k);
                    assert(false);
                }
                assert(ms[0] == ri as int);
            }
            let mut models: Vec<String> = Vec::new();
            let mut cands: Vec<Candidate> = Vec::new();
            let mut max_dur: u64 = 0;
            let mut min_ep: usize = usize::MAX;
            let mut tok_sum: u128 = 0;
            let mut tok_cnt: usize = 0;
            let mut lp_sum: u128 = 0;
            let mut lp_cnt: usize = 0;
            let mut mismatch = false;
            let mut j: usize = 0;
            proof {
                assert(s.subrange(0, 0) =~= Seq::<ResolvedConflictView>::empty());
            }
            while j < n
                invariant
                    j <= n,
                    n == s.len(),
                    s == conflicts.deep_view(),
                    ri < n,
                    rc_key(s[ri as int]) == k,
                    models.deep_view() =~= members_models(s, key_members(s.subrange(0, j as int), k)),
                    cands.deep_view() =~= members_flat(s, key_members(s.subrange(0, j as int), k)),
                    max_dur as int == members_max_duration(s, key_members(s.subrange(0, j as int), k)),
                    min_ep as int == members_min_endpoint(s, key_members(s.subrange(0, j as int), k)),
                    tok_sum as int == members_tokens_sum(s, key_members(s.subrange(0, j as int), k)),
                    tok_cnt as int == members_tokens_cnt(s, key_members(s.subrange(0, j as int), k)),
                    lp_sum as int == members_logprob_sum(s, key_members(s.subrange(0, j as int), k))
                        - members_logprob_cnt(s, key_members(s.subrange(0, j as int), k)) * (
                    i64::MIN as int),
                    lp_cnt as int == members_logprob_cnt(s, key_members(s.subrange(0, j as int), k)),
                    tok_cnt <= j,
                    lp_cnt <= j,
                    tok_sum <= tok_cnt as u128 * (u64::MAX as u128),
                    lp_sum <= lp_cnt as u128 * (u64::MAX as u128),
                    mismatch == exists|p: int|
                        0 <= p < key_members(s.subrange(0, j as int), k).len() && s[#[trigger] key_members(
                            s.subrange(0, j as int),
                            k,
                        )[p]].conflict != s[ri as int].conflict,
                decreases n - j,
            {
                let ghost pj = s.subrange(0, j as int);
                let ghost pj1 = s.subrange(0, j + 1);
                let ghost msj = key_members(pj, k);
                proof {
                    assert(pj1.drop_last() =~= pj);
                    assert(pj1.last() == s[j as int]);
                    lemma_key_members(pj, k);
                    assert(conflicts@[j as int]@ == s[j as int]);
                }
                if same_key(&conflicts[j], &conflicts[ri]) {
                    let ghost msj1 = key_members(pj1, k);
                    proof {
                        assert(msj1 =~= msj.push(j as int));
                        assert(msj1.drop_last() =~= msj);
                        assert(msj1.last() == j as int);
                    }
                    let c = &conflicts[j];
                    models.push(c.model.clone());
                    cands.push(c.to_candidate());
                    if c.duration > max_dur {
                        max_dur = c.duration;
                    }
                    if c.endpoint < min_ep {
                        min_ep = c.endpoint;
                    }
                    match c.total_tokens {
                        Some(t) => {
                            proof {
                                assert(tok_sum + (t as u128) <= (tok_cnt + 1) as u128 * (
                                u64::MAX as u128)) by (nonlinear_arith)
                                    requires
                                        tok_sum <= tok_cnt as u128 * (u64::MAX as u128),
                                        t <= u64::MAX,
                                ;
                            }
                            tok_sum = tok_sum + (t as u128);
                            tok_cnt = tok_cnt + 1;
                        },
                        None => {},
                    }
                    match c.logprob {
                        Some(l) => {
                            let shifted: u64 = ((l as i128) - (i64::MIN as i128)) as u64;
                            proof {
                                assert(lp_sum + (shifted as u128) <= (lp_cnt + 1) as u128 * (
                                u64::MAX as u128)) by (nonlinear_arith)
                                    requires
                                        lp_sum <= lp_cnt as u128 * (u64::MAX as u128),
                                        shifted <= u64::MAX,
                                ;
                            }
                            lp_sum = lp_sum + (shifted as u128);
                            lp_cnt = lp_cnt + 1;
                            proof {
                                assert((lp_cnt) as int * (i64::MIN as int) == (lp_cnt - 1) as int
                                    * (i64::MIN as int) + (i64::MIN as int)) by (nonlinear_arith);
                            }
                        },
                        None => {},
                    }
                    let same_c = c.conflict.same_as(&conflicts[ri].conflict);
                    if !same_c {
                        mismatch = true;
                    }
                    proof {
                        assert(conflicts@[ri as int]@ == s[ri as int]);
                        if mismatch {
                            if same_c {
                                let p = choose|p: int|
                                    0 <= p < msj.len() && s[#[trigger] msj[p]].conflict != s[
                                        ri as int
                                    ].conflict;
                                assert(msj1[p] == msj[p]);
                                assert(s[msj1[p]].conflict != s[ri as int].conflict);
                            } else {
                                assert(s[msj1[msj1.len() - 1]].conflict != s[
                                    ri as int
                                ].conflict);
                            }
                        } else {
                            if exists|p: int|
                                0 <= p < msj1.len() && s[#[trigger] msj1[p]].conflict != s[
                                    ri as int
                                ].conflict {
                                let p = choose|p: int|
                                    0 <= p < msj1.len() && s[#[trigger] msj1[p]].conflict != s[
                                        ri as int
                                    ].conflict;
                                if p < msj1.len() - 1 {
                                    assert(msj[p] == msj1[p]);
                                    assert(false);
                                } else {
                                    assert(false);
                                }
                            }
                        }
                    }
                } else {
                    proof {
                        assert(key_members(pj1, k) =~= msj);
                    }
                }
                j += 1;
            }
            proof {
                assert(s.subrange(0, n as int) =~= s);
                assert(key_members(s.subrange(0, n as int), k) == ms);
            }

            let rep = &conflicts[ri];
            // The spec checks the combined model name first, then the
            // conflicts' structural equality.
            let combined = match Self::combine_model_names(&models) {
                Ok(m) => m,
                Err(_) => {
                    proof {
                        assert(group_error(s, ms) == Some(ResolveError::DuplicateSuffix));
                        assert(first_group_error(s, g as int) == Some(
                            ResolveError::DuplicateSuffix,
                        ));
                    }
                    return Err(ResolveError::DuplicateSuffix);
                },
            };
            if mismatch {
                proof {
                    assert(group_error(s, ms) == Some(ResolveError::ConflictMismatch));
                    assert(first_group_error(s, g as int) == Some(ResolveError::ConflictMismatch));
                }
                return Err(ResolveError::ConflictMismatch);
            }
            proof {
                assert(group_error(s, ms) is None);
                assert(first_group_error(s, g as int) == first_group_error(s, g + 1));
            }

            // the group is nonempty: its representative is a member
            proof {
                lemma_key_members(s, k);
                assert(ms.contains(ri as int));
                assert(ms.len() >= 1);
            }
            let total_tokens: Option<u64> = if tok_cnt == 0 {
                None
            } else {
                proof {
                    assert(tok_sum / (tok_cnt as u128) <= u64::MAX as u128) by (nonlinear_arith)
                        requires
                            tok_cnt > 0,
                            tok_sum <= tok_cnt as u128 * (u64::MAX as u128),
                    ;
                }
                Some((tok_sum / (tok_cnt as u128)) as u64)
            };
            let logprob: Option<i64> = if lp_cnt == 0 {
                None
            } else {
                proof {
                    assert(lp_sum / (lp_cnt as u128) <= u64::MAX as u128) by (nonlinear_arith)
                        requires
                            lp_cnt > 0,
                            lp_sum <= lp_cnt as u128 * (u64::MAX as u128),
                    ;
                }
                let mean_sh = lp_sum / (lp_cnt as u128);
                proof {
                    vstd::arithmetic::div_mod::lemma_hoist_over_denominator(
                        members_logprob_sum(s, ms),
                        -(i64::MIN as int),
                        lp_cnt as nat,
                    );
                    assert((-(i64::MIN as int)) * (lp_cnt as int) == -(members_logprob_cnt(s, ms)
                        * (i64::MIN as int))) by (nonlinear_arith)
                        requires
                            lp_cnt as int == members_logprob_cnt(s, ms),
                    ;
                    assert(mean_sh as int == members_logprob_sum(s, ms) / (lp_cnt as int) - (
                    i64::MIN as int));
                    assert(members_logprob_sum(s, ms) / (lp_cnt as int) >= i64::MIN as int);
                    assert(members_logprob_sum(s, ms) / (lp_cnt as int) <= i64::MAX as int);
                }
                Some(((mean_sh as i128) + (i64::MIN as i128)) as i64)
            };
            let item = ResolvedConflict {
                conflict: rep.conflict.clone(),
                resolved_version: rep.resolved_version.clone(),
                model: combined,
                duration: max_dur,
                total_tokens,
                logprob,
                endpoint: min_ep,
                deduplicated_conflicts: cands,
            };
            proof {
                assert(conflicts@[ri as int]@ == s[ri as int]);
                assert(k == rc_key(s[ri as int]));
                assert(item@.conflict == s[ms[0]].conflict);
                assert(item@.resolved_version == k.2);
                assert(item@ =~= merge_group(s, k, ms));
            }
            let ghost old_merged = merged.deep_view();
            merged.push(item);
            proof {
                assert(merged.deep_view() =~= old_merged.push(merge_group(s, k, ms)));
                assert(merged.deep_view() =~= merged_seq(s).subrange(0, g + 1));
            }
            g += 1;
        }
        proof {
            assert(first_group_error(s, gn as int) is None);
            assert(merged.deep_view() =~= merged_seq(s));
        }

        // Rank the merged groups.
        let ghost mseq = merged_seq(s);
        let mut out: Vec<ResolvedConflict> = Vec::new();
        let mn = merged.len();
        proof {
            assert(mseq.subrange(0, 0) =~= Seq::<ResolvedConflictView>::empty());
            assert(out.deep_view() =~= isort(mseq.subrange(0, 0)));
        }
        for idx in 0..mn
            invariant
                mn == merged@.len(),
                merged.deep_view() == mseq,
                out.deep_view() =~= isort(mseq.subrange(0, idx as int)),
                out@.len() == idx,
        {
            let x = merged[idx].clone();
            proof {
                assert(x@ == merged.deep_view()[idx as int]);
            }
            let mut at = out.len();
            while at > 0 && rank_before(&x, &out[at - 1])
                invariant
                    at <= out@.len(),
                    out.deep_view() =~= isort(mseq.subrange(0, idx as int)),
                    x@ == mseq[idx as int],
                    forall|p: int|
                        at <= p < out@.len() ==> rank_lt(x@, #[trigger] out.deep_view()[p]),
                decreases at,
            {
                proof {
                    assert(out.deep_view()[at - 1] == out@[at - 1]@);
                }
                at -= 1;
            }
            proof {
                if at > 0 {
                    assert(out.deep_view()[at - 1] == out@[at - 1]@);
                }
                lemma_insert_sorted_at(out.deep_view(), x@, at as int);
                assert(mseq.subrange(0, idx + 1).drop_last() =~= mseq.subrange(0, idx as int));
                assert(mseq.subrange(0, idx + 1).last() == mseq[idx as int]);
            }
            let ghost old_out = out.deep_view();
            let ghost old_vec = out@;
            out.insert(at, x);
            proof {
                assert(out@ == old_vec.insert(at as int, x));
                assert forall|p: int| 0 <= p < out@.len() implies out.deep_view()[p] == (
                old_out.subrange(0, at as int) + seq![x@] + old_out.subrange(
                    at as int,
                    old_out.len() as int,
                ))[p] by {
                    if p < at {
                        assert(out@[p] == old_vec[p]);
                    } else if p > at {
                        assert(out@[p] == old_vec[p - 1]);
                    }
                }
                assert(out.deep_view() =~= old_out.subrange(0, at as int) + seq![x@]
                    + old_out.subrange(at as int, old_out.len() as int));
                assert(out.deep_view() =~= insert_sorted(old_out, x@));
                assert(isort(mseq.subrange(0, idx + 1)) == insert_sorted(isort(mseq.subrange(
                    0,
                    idx as int,
                )), mseq[idx as int]));
            }
        }
        proof {
            assert(mseq.subrange(0, mn as int) =~= mseq);
        }
        Ok(out)
    }
}


/// The merged groups compare equal in rank exactly when file, line,
/// agreement count and endpoint all agree.
pub open spec fn rank_eq(a: ResolvedConflictView, b: ResolvedConflictView) -> bool {
    a.conflict.file_path == b.conflict.file_path && a.conflict.start_line == b.conflict.start_line
        && a.deduplicated_conflicts.len() == b.deduplicated_conflicts.len() && a.endpoint
        == b.endpoint
}

proof fn lemma_rank_trichotomy(a: ResolvedConflictView, b: ResolvedConflictView)
    ensures
        rank_lt(a, b) || rank_lt(b, a) || rank_eq(a, b),
        !(rank_lt(a, b) && rank_lt(b, a)),
{
    crate::strutil::lemma_lex_lt_total(a.conflict.file_path, b.conflict.file_path);
}

proof fn lemma_rank_lt_trans(a: ResolvedConflictView, b: ResolvedConflictView, c: ResolvedConflictView)
    requires
        rank_lt(a, b),
        rank_lt(b, c),
    ensures
        rank_lt(a, c),
{
    crate::strutil::lemma_lex_lt_total(a.conflict.file_path, b.conflict.file_path);
    crate::strutil::lemma_lex_lt_total(b.conflict.file_path, c.conflict.file_path);
    crate::strutil::lemma_lex_lt_total(a.conflict.file_path, c.conflict.file_path);
    if lex_lt(a.conflict.file_path, b.conflict.file_path) && lex_lt(
        b.conflict.file_path,
        c.conflict.file_path,
    ) {
        crate::strutil::lemma_lex_lt_trans(
            a.conflict.file_path,
            b.conflict.file_path,
            c.conflict.file_path,
        );
    }
}

/// Strict rank order composes with non-strict order on the right.
proof fn lemma_rank_lt_leq(a: ResolvedConflictView, b: ResolvedConflictView, c: ResolvedConflictView)
    requires
        rank_lt(a, b),
        !rank_lt(c, b),
    ensures
        rank_lt(a, c),
{
    lemma_rank_trichotomy(b, c);
    if rank_lt(b, c) {
        lemma_rank_lt_trans(a, b, c);
    }
}

/// No later element of a ranked sequence is strictly below an earlier one.
pub open spec fn rank_sorted(s: Seq<ResolvedConflictView>) -> bool {
    forall|p: int, q: int| 0 <= p < q < s.len() ==> !rank_lt(#[trigger] s[q], #[trigger] s[p])
}

proof fn lemma_insert_sorted_elems(sorted: Seq<ResolvedConflictView>, x: ResolvedConflictView)
    ensures
        insert_sorted(sorted, x).len() == sorted.len() + 1,
        forall|p: int|
            0 <= p < insert_sorted(sorted, x).len() ==> (#[trigger] insert_sorted(sorted, x)[p]
                == x || exists|q: int| 0 <= q < sorted.len() && insert_sorted(sorted, x)[p] == sorted[q]),
    decreases sorted.len(),
{
    if sorted.len() > 0 && rank_lt(x, sorted.last()) {
        lemma_insert_sorted_elems(sorted.drop_last(), x);
        let ins = insert_sorted(sorted, x);
        let inner = insert_sorted(sorted.drop_last(), x);
        assert forall|p: int|
            0 <= p < ins.len() implies (#[trigger] ins[p] == x || exists|q: int|
            0 <= q < sorted.len() && ins[p] == sorted[q]) by {
            if p < ins.len() - 1 {
                assert(ins[p] == inner[p]);
                if inner[p] != x {
                    let q = choose|q: int|
                        0 <= q < sorted.drop_last().len() && inner[p] == sorted.drop_last()[q];
                    assert(ins[p] == sorted[q]);
                }
            } else {
                assert(ins[p] == sorted[sorted.len() - 1]);
            }
        }
    }
}

proof fn lemma_insert_sorted_keeps_sorted(sorted: Seq<ResolvedConflictView>, x: ResolvedConflictView)
    requires
        rank_sorted(sorted),
    ensures
        rank_sorted(insert_sorted(sorted, x)),
    decreases sorted.len(),
{
    let ins = insert_sorted(sorted, x);
    if sorted.len() > 0 && rank_lt(x, sorted.last()) {
        let front = sorted.drop_last();
        let last = sorted.last();
        assert(rank_sorted(front)) by {
            assert forall|p: int, q: int|
                0 <= p < q < front.len() implies !rank_lt(#[trigger] front[q], #[trigger] front[p]) by {
                assert(front[q] == sorted[q] && front[p] == sorted[p]);
            }
        }
        lemma_insert_sorted_keeps_sorted(front, x);
        lemma_insert_sorted_elems(front, x);
        let inner = insert_sorted(front, x);
        assert forall|p: int, q: int|
            0 <= p < q < ins.len() implies !rank_lt(#[trigger] ins[q], #[trigger] ins[p]) by {
            if q < ins.len() - 1 {
                assert(ins[p] == inner[p] && ins[q] == inner[q]);
            } else {
                assert(ins[q] == last);
                assert(ins[p] == inner[p]);
                if inner[p] == x {
                    lemma_rank_trichotomy(x, last);
                } else {
                    let q2 = choose|q2: int| 0 <= q2 < front.len() && inner[p] == front[q2];
                    assert(front[q2] == sorted[q2]);
                    assert(!rank_lt(sorted[sorted.len() - 1], sorted[q2]));
                }
            }
        }
    } else {
        assert forall|p: int, q: int|
            0 <= p < q < ins.len() implies !rank_lt(#[trigger] ins[q], #[trigger] ins[p]) by {
            if q == ins.len() - 1 && sorted.len() > 0 {
                assert(ins[q] == x);
                assert(ins[p] == sorted[p]);
                if rank_lt(x, sorted[p]) {
                    assert(!rank_lt(sorted.last(), sorted[p]) || p == sorted.len() - 1);
                    if p < sorted.len() - 1 {
                        lemma_rank_lt_leq(x, sorted[p], sorted[sorted.len() - 1]);
                    }
                }
            }
        }
    }
}

/// The deterministic ranking really orders the output: the merged groups come
/// out with no later group ranking strictly before an earlier one.
pub proof fn lemma_isort_rank_sorted(s: Seq<ResolvedConflictView>)
    ensures
        rank_sorted(isort(s)),
    decreases s.len(),
{
    if s.len() > 0 {
        lemma_isort_rank_sorted(s.drop_last());
        lemma_insert_sorted_keeps_sorted(isort(s.drop_last()), s.last());
    }
}

proof fn lemma_insert_sorted_multiset(sorted: Seq<ResolvedConflictView>, x: ResolvedConflictView)
    ensures
        insert_sorted(sorted, x).to_multiset() == sorted.to_multiset().insert(x),
    decreases sorted.len(),
{
    broadcast use vstd::seq_lib::group_to_multiset_ensures;

    if sorted.len() > 0 && rank_lt(x, sorted.last()) {
        let front = sorted.drop_last();
        let last = sorted.last();
        lemma_insert_sorted_multiset(front, x);
        assert(front.push(last) =~= sorted);
        assert(insert_sorted(sorted, x).to_multiset() == insert_sorted(front, x).to_multiset().insert(last));
        assert(front.to_multiset().insert(x).insert(last) =~= front.to_multiset().insert(
            last,
        ).insert(x));
    } else {
    }
}

/// Ranking the merged groups permutes them and loses none.
pub proof fn lemma_isort_multiset(s: Seq<ResolvedConflictView>)
    ensures
        isort(s).to_multiset() == s.to_multiset(),
    decreases s.len(),
{
    broadcast use vstd::seq_lib::group_to_multiset_ensures;

    if s.len() > 0 {
        lemma_isort_multiset(s.drop_last());
        lemma_insert_sorted_multiset(isort(s.drop_last()), s.last());
        assert(s.drop_last().push(s.last()) =~= s);
    }
}

/// Ranking determinism: wherever two merged groups concern the same file and
/// the same line, the one more sources agreed on comes first — whatever order
/// the candidates arrived in.
pub proof fn lemma_ranking_agreement_first(s: Seq<ResolvedConflictView>, i: int, j: int)
    requires
        dedup_spec(s) is Ok,
        0 <= i < j < dedup_spec(s)->Ok_0.len(),
        dedup_spec(s)->Ok_0[i].conflict.file_path == dedup_spec(s)->Ok_0[j].conflict.file_path,
        dedup_spec(s)->Ok_0[i].conflict.start_line == dedup_spec(s)->Ok_0[j].conflict.start_line,
    ensures
        dedup_spec(s)->Ok_0[i].deduplicated_conflicts.len() >= dedup_spec(
            s,
        )->Ok_0[j].deduplicated_conflicts.len(),
{
    let out = dedup_spec(s)->Ok_0;
    lemma_isort_rank_sorted(merged_seq(s));
    assert(!rank_lt(out[j], out[i]));
    if out[j].deduplicated_conflicts.len() > out[i].deduplicated_conflicts.len() {
        crate::strutil::lemma_lex_lt_total(
            out[j].conflict.file_path,
            out[i].conflict.file_path,
        );
        assert(rank_lt(out[j], out[i]));
    }
}

/// Deduplication is idempotent on an already-deduplicated collection: when
/// every key occurs once — as after one pass — and every model identity
/// renders back to itself, a second pass merges nothing away: it yields the
/// same groups with the same combined model identities, each folding exactly
/// its own record, reordered only by the deterministic ranking. (A combined
/// identity such as one plain name joined after a parenthesized one does not
/// render back to itself; such values are excluded.)
pub proof fn lemma_dedup_idempotent(s: Seq<ResolvedConflictView>)
    requires
        forall|p: int, q: int|
            0 <= p < q < s.len() ==> rc_key(#[trigger] s[p]) != rc_key(#[trigger] s[q]),
        forall|p: int|
            0 <= p < s.len() ==> combine_model_names_spec(seq![(#[trigger] s[p]).model]) == Some(
                s[p].model,
            ),
        forall|p: int|
            0 <= p < s.len() ==> (#[trigger] s[p]).duration >= 0 && 0 <= s[p].endpoint
                <= usize::MAX,
    ensures
        dedup_spec(s) is Ok,
        merged_seq(s).len() == s.len(),
        forall|g: int|
            0 <= g < s.len() ==> (#[trigger] merged_seq(s)[g]).flat() =~= s[g].flat()
                && merged_seq(s)[g].deduplicated_conflicts =~= seq![s[g].flat()],
        dedup_spec(s)->Ok_0.to_multiset() == merged_seq(s).to_multiset(),
{
    lemma_distinct_keys_identity(s);
    assert forall|g: int| 0 <= g < s.len() implies key_members(s, distinct_keys(s)[g])
        =~= seq![g] by {
        lemma_key_members_singleton(s, g);
    }
    assert forall|g: int|
        0 <= g < s.len() implies (#[trigger] merged_seq(s)[g]).flat() =~= s[g].flat()
        && merged_seq(s)[g].deduplicated_conflicts =~= seq![s[g].flat()] by {
        let k = distinct_keys(s)[g];
        let ms = key_members(s, k);
        assert(ms =~= seq![g]);
        lemma_members_singleton(s, g);
        if s[g].total_tokens is Some {
            let t = s[g].total_tokens->Some_0;
            assert(t / 1int == t) by (nonlinear_arith);
        }
        if s[g].logprob is Some {
            let l = s[g].logprob->Some_0;
            assert(l / 1int == l) by (nonlinear_arith);
        }
    }
    assert forall|g: int| 0 <= g < s.len() implies group_error(
        s,
        key_members(s, distinct_keys(s)[g]),
    ) is None by {
        let k = distinct_keys(s)[g];
        let ms = key_members(s, k);
        assert(ms =~= seq![g]);
        lemma_members_singleton(s, g);
        assert(combine_model_names_spec(members_models(s, ms)) == Some(s[g].model));
        if exists|p: int| 0 <= p < ms.len() && s[#[trigger] ms[p]].conflict != s[ms[0]].conflict {
            let p = choose|p: int|
                0 <= p < ms.len() && s[#[trigger] ms[p]].conflict != s[ms[0]].conflict;
            assert(false);
        }
    }
    lemma_no_group_error(s, 0);
    lemma_isort_multiset(merged_seq(s));
}

/// When every group merges cleanly, no error surfaces.
proof fn lemma_no_group_error(s: Seq<ResolvedConflictView>, g: int)
    requires
        0 <= g,
        forall|x: int|
            g <= x < distinct_keys(s).len() ==> group_error(
                s,
                key_members(s, #[trigger] distinct_keys(s)[x]),
            ) is None,
    ensures
        first_group_error(s, g) is None,
    decreases distinct_keys(s).len() - g,
{
    if g < distinct_keys(s).len() {
        lemma_no_group_error(s, g + 1);
    }
}

/// Under pairwise-distinct keys, the distinct keys are the keys, in order.
proof fn lemma_distinct_keys_identity(s: Seq<ResolvedConflictView>)
    requires
        forall|p: int, q: int|
            0 <= p < q < s.len() ==> rc_key(#[trigger] s[p]) != rc_key(#[trigger] s[q]),
    ensures
        distinct_keys(s).len() == s.len(),
        forall|g: int| 0 <= g < s.len() ==> distinct_keys(s)[g] == rc_key(#[trigger] s[g]),
    decreases s.len(),
{
    if s.len() > 0 {
        let front = s.drop_last();
        assert forall|p: int, q: int|
            0 <= p < q < front.len() implies rc_key(#[trigger] front[p]) != rc_key(
            #[trigger] front[q],
        ) by {
            assert(front[p] == s[p] && front[q] == s[q]);
        }
        lemma_distinct_keys_identity(front);
        lemma_distinct_keys_complete(front);
        if distinct_keys(front).contains(rc_key(s.last())) {
            let j = choose|j: int| 0 <= j < front.len() && rc_key(front[j]) == rc_key(s.last());
            assert(rc_key(s[j]) == rc_key(s[s.len() - 1]));
            assert(false);
        }
        assert forall|g: int| 0 <= g < s.len() implies distinct_keys(s)[g] == rc_key(
            #[trigger] s[g],
        ) by {
            if g < s.len() - 1 {
                assert(distinct_keys(s)[g] == distinct_keys(front)[g]);
                assert(front[g] == s[g]);
            }
        }
    }
}

/// Under pairwise-distinct keys, each key's members are exactly its own
/// record.
proof fn lemma_key_members_singleton(s: Seq<ResolvedConflictView>, g: int)
    requires
        0 <= g < s.len(),
        forall|p: int, q: int|
            0 <= p < q < s.len() ==> rc_key(#[trigger] s[p]) != rc_key(#[trigger] s[q]),
        distinct_keys(s).len() == s.len(),
        forall|x: int| 0 <= x < s.len() ==> distinct_keys(s)[x] == rc_key(#[trigger] s[x]),
    ensures
        key_members(s, distinct_keys(s)[g]) =~= seq![g],
{
    let k = distinct_keys(s)[g];
    lemma_key_members(s, k);
    let ms = key_members(s, k);
    assert(rc_key(s[g]) == k);
    assert(ms.contains(g));
    assert forall|p: int| 0 <= p < ms.len() implies ms[p] == g by {
        assert(rc_key(s[ms[p]]) == k);
        if ms[p] < g {
            assert(rc_key(s[ms[p]]) != rc_key(s[g]));
        } else if ms[p] > g {
            assert(rc_key(s[g]) != rc_key(s[ms[p]]));
        }
    }
    if ms.len() == 0 {
        assert(!ms.contains(g));
    }
    if ms.len() >= 2 {
        assert(ms[0] < ms[1]);
        assert(ms[0] == g && ms[1] == g);
    }
    let p = choose|p: int| 0 <= p < ms.len() && ms[p] == g;
}


/// Unfolds every per-group quantity for a one-member group.
proof fn lemma_members_singleton(s: Seq<ResolvedConflictView>, g: int)
    requires
        0 <= g < s.len(),
    ensures
        members_models(s, seq![g]) =~= seq![s[g].model],
        members_flat(s, seq![g]) =~= seq![s[g].flat()],
        members_max_duration(s, seq![g]) == if s[g].duration > 0 {
            s[g].duration
        } else {
            0
        },
        members_min_endpoint(s, seq![g]) == if s[g].endpoint < usize::MAX as int {
            s[g].endpoint
        } else {
            usize::MAX as int
        },
        members_tokens_cnt(s, seq![g]) == if s[g].total_tokens is Some {
            1int
        } else {
            0int
        },
        members_tokens_sum(s, seq![g]) == match s[g].total_tokens {
            Some(t) => t,
            None => 0,
        },
        members_logprob_cnt(s, seq![g]) == if s[g].logprob is Some {
            1int
        } else {
            0int
        },
        members_logprob_sum(s, seq![g]) == match s[g].logprob {
            Some(l) => l,
            None => 0,
        },
{
    let ms = seq![g];
    assert(ms.drop_last() =~= Seq::<int>::empty());
    assert(ms.last() == g);
    assert(members_models(s, Seq::<int>::empty()) == Seq::<Seq<char>>::empty());
    assert(members_flat(s, Seq::<int>::empty()) == Seq::<CandidateView>::empty());
    assert(members_max_duration(s, Seq::<int>::empty()) == 0);
    assert(members_min_endpoint(s, Seq::<int>::empty()) == usize::MAX as int);
    assert(members_tokens_cnt(s, Seq::<int>::empty()) == 0);
    assert(members_tokens_sum(s, Seq::<int>::empty()) == 0);
    assert(members_logprob_cnt(s, Seq::<int>::empty()) == 0);
    assert(members_logprob_sum(s, Seq::<int>::empty()) == 0);
}

} // verus!