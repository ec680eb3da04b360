//! String primitives with exact sequence-level specifications: character
//! search, prefix tests, inclusive line splitting and joining, whitespace
//! trimming, decimal parsing and lexicographic order.

use vstd::prelude::*;

verus! {

/// Relies on std's String::push: appends exactly one character at the end.
#[verifier::external_body]
pub fn push_char(s: &mut String, c: char)
    ensures
        final(s)@ == old(s)@.push(c),
{
    s.push(c);
}

/// First index `i >= from` with `s[i] == c`, if any.
pub open spec fn find_char_spec(s: Seq<char>, from: int, c: char) -> Option<int>
    decreases s.len() - from,
{
    if from < 0 || from >= s.len() {
        None
    } else if s[from] == c {
        Some(from)
    } else {
        find_char_spec(s, from + 1, c)
    }
}

pub proof fn lemma_find_char(s: Seq<char>, from: int, c: char)
    requires
        0 <= from,
    ensures
        match find_char_spec(s, from, c) {
            Some(i) => from <= i < s.len() && s[i] == c && (forall|j: int|
                from <= j < i ==> s[j] != c),
            None => forall|j: int| from <= j < s.len() ==> s[j] != c,
        },
    decreases s.len() - from,
{
    if from < s.len() && s[from] != c {
        lemma_find_char(s, from + 1, c);
    }
}

pub fn find_char(s: &str, from: usize, c: char) -> (r: Option<usize>)
    ensures
        match r {
            Some(i) => find_char_spec(s@, from as int, c) == Some(i as int),
            None => find_char_spec(s@, from as int, c) is None,
        },
{
    let n = s.unicode_len();
    let mut i = from;
    while i < n
        invariant
            from <= i,
            n == s@.len(),
            find_char_spec(s@, from as int, c) == find_char_spec(s@, i as int, c),
        decreases n - i,
    {
        if s.get_char(i) == c {
            return Some(i);
        }
        i += 1;
    }
    None
}

pub proof fn lemma_find_char_unique(s: Seq<char>, from: int, c: char, k: int)
    requires
        0 <= from <= k < s.len(),
        s[k] == c,
        forall|j: int| from <= j < k ==> s[j] != c,
    ensures
        find_char_spec(s, from, c) == Some(k),
    decreases k - from,
{
    if from < k {
        lemma_find_char_unique(s, from + 1, c, k);
    }
}

/// Last index with `s[i] == c`, if any.
pub open spec fn rfind_char_spec(s: Seq<char>, c: char) -> Option<int>
    decreases s.len(),
{
    if s.len() == 0 {
        None
    } else if s.last() == c {
        Some(s.len() - 1)
    } else {
        rfind_char_spec(s.drop_last(), c)
    }
}

pub fn rfind_char(s: &str, c: char) -> (r: Option<usize>)
    ensures
        match r {
            Some(i) => i < s@.len() && rfind_char_spec(s@, c) == Some(i as int),
            None => rfind_char_spec(s@, c) is None,
        },
{
    let n = s.unicode_len();
    let mut j = n;
    proof {
        assert(s@.subrange(0, n as int) =~= s@);
    }
    while j > 0
        invariant
            j <= n,
            n == s@.len(),
            rfind_char_spec(s@, c) == rfind_char_spec(s@.subrange(0, j as int), c),
        decreases j,
    {
        let ghost cur = s@.subrange(0, j as int);
        if s.get_char(j - 1) == c {
            proof {
                assert(cur.last() == s@[j - 1]);
            }
            return Some(j - 1);
        }
        proof {
            assert(cur.last() == s@[j - 1]);
            assert(cur.drop_last() =~= s@.subrange(0, j - 1));
        }
        j -= 1;
    }
    proof {
        assert(s@.subrange(0, 0) =~= Seq::<char>::empty());
    }
    None
}

/// `p` is a prefix of `s`.
pub open spec fn starts_with_spec(s: Seq<char>, p: Seq<char>) -> bool {
    s.len() >= p.len() && s.subrange(0, p.len() as int) == p
}

pub fn starts_with_str(s: &str, p: &str) -> (b: bool)
    ensures
        b == starts_with_spec(s@, p@),
{
    let n = p.unicode_len();
    if s.unicode_len() < n {
        return false;
    }
    let mut i: usize = 0;
    while i < n
        invariant
            i <= n,
            n == p@.len(),
            s@.len() >= n,
            forall|j: int| 0 <= j < i ==> s@[j] == p@[j],
        decreases n - i,
    {
        if s.get_char(i) != p.get_char(i) {
            assert(s@.subrange(0, n as int)[i as int] != p@[i as int]);
            return false;
        }
        i += 1;
    }
    assert(s@.subrange(0, n as int) =~= p@);
    true
}

pub fn str_eq(s: &str, p: &str) -> (b: bool)
    ensures
        b == (s@ == p@),
{
    if s.unicode_len() != p.unicode_len() {
        proof {
            if s@ == p@ {
                assert(s@.len() == p@.len());
            }
        }
        return false;
    }
    let b = starts_with_str(s, p);
    proof {
        if b {
            assert(s@.subrange(0, p@.len() as int) =~= s@);
        } else {
            if s@ == p@ {
                assert(s@.subrange(0, p@.len() as int) =~= p@);
            }
        }
    }
    b
}

/// The text split after every newline character; every piece except possibly
/// the last ends with `'\n'`, and the pieces concatenate back to the text.
pub open spec fn line_split(s: Seq<char>) -> Seq<Seq<char>>
    decreases s.len(),
    via line_split_dec
{
    if s.len() == 0 {
        Seq::empty()
    } else {
        match find_char_spec(s, 0, '\n') {
            Some(i) => seq![s.subrange(0, i + 1)] + line_split(
                s.subrange(i + 1, s.len() as int),
            ),
            None => seq![s],
        }
    }
}

#[via_fn]
proof fn line_split_dec(s: Seq<char>) {
    lemma_find_char(s, 0, '\n');
}

pub fn split_lines(s: &str) -> (r: Vec<String>)
    ensures
        r.deep_view() == line_split(s@),
{
    let n = s.unicode_len();
    let mut r: Vec<String> = Vec::new();
    let mut p: usize = 0;
    proof {
        assert(s@.subrange(0, n as int) =~= s@);
        assert(r.deep_view() + line_split(s@) =~= line_split(s@));
    }
    while p < n
        invariant
            p <= n,
            n == s@.len(),
            line_split(s@) == r.deep_view() + line_split(s@.subrange(p as int, n as int)),
        decreases n - p,
    {
        let ghost suffix = s@.subrange(p as int, n as int);
        let ghost old_deep = r.deep_view();
        proof {
            lemma_find_char(s@, p as int, '\n');
            lemma_find_char_shift(s@, p as int, '\n');
        }
        let q: usize = match find_char(s, p, '\n') {
            Some(i) => i + 1,
            None => n,
        };
        let piece = s.substring_char(p, q);
        let owned = String::from_str(piece);
        r.push(owned);
        proof {
            assert(r.deep_view() =~= old_deep.push(s@.subrange(p as int, q as int)));
            assert(suffix.subrange(0, q - p) =~= s@.subrange(p as int, q as int));
            assert(suffix.subrange(q - p, suffix.len() as int) =~= s@.subrange(
                q as int,
                n as int,
            ));
            assert(line_split(suffix) =~= seq![s@.subrange(p as int, q as int)] + line_split(
                s@.subrange(q as int, n as int),
            ));
            assert(r.deep_view() + line_split(s@.subrange(q as int, n as int)) =~= line_split(
                s@,
            ));
        }
        p = q;
    }
    proof {
        assert(line_split(s@.subrange(p as int, n as int)) =~= Seq::<Seq<char>>::empty());
        assert(r.deep_view() =~= line_split(s@));
    }
    r
}

/// First position `i >= from` where `needle` occurs in `s`, if any.
pub open spec fn find_sub_spec(s: Seq<char>, needle: Seq<char>, from: int) -> Option<int>
    decreases s.len() + 1 - from,
{
    if from < 0 || from + needle.len() > s.len() {
        None
    } else if s.subrange(from, from + needle.len()) == needle {
        Some(from)
    } else {
        find_sub_spec(s, needle, from + 1)
    }
}

pub proof fn lemma_find_sub(s: Seq<char>, needle: Seq<char>, from: int)
    requires
        0 <= from,
    ensures
        match find_sub_spec(s, needle, from) {
            Some(i) => from <= i && i + needle.len() <= s.len() && s.subrange(
                i,
                i + needle.len(),
            ) == needle,
            None => true,
        },
    decreases s.len() + 1 - from,
{
    if !(from + needle.len() > s.len()) && s.subrange(from, from + needle.len()) != needle {
        lemma_find_sub(s, needle, from + 1);
    }
}

fn match_at(s: &str, needle: &str, at: usize) -> (b: bool)
    requires
        at + needle@.len() <= s@.len(),
    ensures
        b == (s@.subrange(at as int, at as int + needle@.len()) == needle@),
{
    let sn = s.unicode_len();
    let m = needle.unicode_len();
    let mut j: usize = 0;
    while j < m
        invariant
            j <= m,
            m == needle@.len(),
            sn == s@.len(),
            at + m <= s@.len(),
            forall|p: int| 0 <= p < j ==> s@[at + p] == needle@[p],
        decreases m - j,
    {
        if s.get_char(at + j) != needle.get_char(j) {
            assert(s@.subrange(at as int, at as int + m) != needle@) by {
                assert(s@.subrange(at as int, at as int + m as int)[j as int] != needle@[j as int]);
            }
            return false;
        }
        j += 1;
    }
    assert(s@.subrange(at as int, at as int + m as int) =~= needle@);
    true
}

pub fn find_sub(s: &str, needle: &str) -> (r: Option<usize>)
    ensures
        match r {
            Some(i) => find_sub_spec(s@, needle@, 0) == Some(i as int),
            None => find_sub_spec(s@, needle@, 0) is None,
        },
{
    let n = s.unicode_len();
    let m = needle.unicode_len();
    if m > n {
        return None;
    }
    let mut i: usize = 0;
    while i <= n - m
        invariant
            i <= n - m,
            m <= n,
            n == s@.len(),
            m == needle@.len(),
            find_sub_spec(s@, needle@, 0) == find_sub_spec(s@, needle@, i as int),
        decreases n - m - i,
    {
        if match_at(s, needle, i) {
            return Some(i);
        }
        if i == n - m {
            proof {
                assert(find_sub_spec(s@, needle@, i as int) == find_sub_spec(
                    s@,
                    needle@,
                    i as int + 1,
                ));
            }
            return None;
        }
        i += 1;
    }
    None
}

/// A line as the splitter produces every line but possibly the last: at
/// least one character, ending in a newline, with no newline before it.
pub open spec fn is_terminated_line(l: Seq<char>) -> bool {
    l.len() >= 1 && l[l.len() - 1] == '\n' && (forall|j: int| 0 <= j < l.len() - 1 ==> l[j] != '\n')
}

pub proof fn lemma_line_split_props(s: Seq<char>)
    ensures
        forall|i: int| 0 <= i < line_split(s).len() ==> #[trigger] line_split(s)[i].len() >= 1,
        forall|i: int|
            0 <= i < line_split(s).len() - 1 ==> is_terminated_line(#[trigger] line_split(s)[i]),
        forall|i: int, j: int|
            0 <= i < line_split(s).len() && 0 <= j < line_split(s)[i].len() - 1 ==> #[trigger] line_split(
                s,
            )[i][j] != '\n',
    decreases s.len(),
{
    if s.len() != 0 {
        lemma_find_char(s, 0, '\n');
        match find_char_spec(s, 0, '\n') {
            Some(i) => {
                let head = s.subrange(0, i + 1);
                let rest = s.subrange(i + 1, s.len() as int);
                lemma_line_split_props(rest);
                assert(is_terminated_line(head));
                assert forall|k: int|
                    0 <= k < line_split(s).len() implies #[trigger] line_split(s)[k].len()
                    >= 1 by {
                    if k >= 1 {
                        assert(line_split(s)[k] == line_split(rest)[k - 1]);
                    }
                }
                assert forall|k: int|
                    0 <= k < line_split(s).len() - 1 implies is_terminated_line(
                    #[trigger] line_split(s)[k],
                ) by {
                    if k >= 1 {
                        assert(line_split(s)[k] == line_split(rest)[k - 1]);
                    }
                }
                assert forall|k: int, j: int|
                    0 <= k < line_split(s).len() && 0 <= j < line_split(s)[k].len()
                    - 1 implies #[trigger] line_split(s)[k][j] != '\n' by {
                    if k >= 1 {
                        assert(line_split(s)[k] == line_split(rest)[k - 1]);
                    }
                }
            },
            None => {
                assert(line_split(s) =~= seq![s]);
            },
        }
    }
}

pub proof fn lemma_line_split_roundtrip(ls: Seq<Seq<char>>)
    requires
        forall|i: int| 0 <= i < ls.len() ==> is_terminated_line(#[trigger] ls[i]),
    ensures
        line_split(ls.flatten()) == ls,
    decreases ls.len(),
{
    if ls.len() == 0 {
        assert(ls.flatten() =~= Seq::<char>::empty());
        assert(line_split(ls.flatten()) =~= ls);
    } else {
        let head = ls.first();
        let rest = ls.drop_first();
        let f = ls.flatten();
        assert(f == head + rest.flatten());
        assert(forall|j: int| 0 <= j < head.len() ==> f[j] == head[j]);
        assert(f[head.len() - 1] == '\n');
        lemma_find_char_unique(f, 0, '\n', head.len() - 1);
        assert(f.subrange(0, head.len() as int) =~= head);
        assert(f.subrange(head.len() as int, f.len() as int) =~= rest.flatten());
        lemma_line_split_roundtrip(rest);
        assert(line_split(f) == seq![f.subrange(0, head.len() as int)] + line_split(
            f.subrange(head.len() as int, f.len() as int),
        ));
        assert(line_split(f) =~= ls);
    }
}

/// Searching in a suffix is searching from an offset, shifted.
pub proof fn lemma_find_char_shift(s: Seq<char>, p: int, c: char)
    requires
        0 <= p <= s.len(),
    ensures
        find_char_spec(s.subrange(p, s.len() as int), 0, c) == match find_char_spec(s, p, c) {
            Some(i) => Some(i - p),
            None => None::<int>,
        },
{
    let suffix = s.subrange(p, s.len() as int);
    lemma_find_char(s, p, c);
    lemma_find_char(suffix, 0, c);
    match find_char_spec(s, p, c) {
        Some(i) => {
            match find_char_spec(suffix, 0, c) {
                Some(k) => {
                    assert(s[k + p] == c);
                    assert(suffix[i - p] == c);
                },
                None => {
                    assert(suffix[i - p] == c);
                },
            }
        },
        None => {
            match find_char_spec(suffix, 0, c) {
                Some(k) => {
                    assert(s[k + p] == c);
                },
                None => {},
            }
        },
    }
}

pub fn join_range(lines: &Vec<String>, from: usize, to: usize) -> (r: String)
    requires
        from <= to <= lines@.len(),
    ensures
        r@ == lines.deep_view().subrange(from as int, to as int).flatten(),
{
    broadcast use vstd::seq::Seq::lemma_flatten_push;

    let mut r = String::new();
    let mut i = from;
    proof {
        assert(lines.deep_view().subrange(from as int, from as int) =~= Seq::<Seq<char>>::empty());
        assert(Seq::<Seq<char>>::empty().flatten() =~= Seq::<char>::empty());
    }
    while i < to
        invariant
            from <= i <= to <= lines@.len(),
            r@ == lines.deep_view().subrange(from as int, i as int).flatten(),
        decreases to - i,
    {
        let ghost pre = lines.deep_view().subrange(from as int, i as int);
        let ghost elem = lines.deep_view()[i as int];
        r.append(lines[i].as_str());
        proof {
            assert(elem == lines@[i as int]@);
            assert(lines.deep_view().subrange(from as int, i + 1) =~= pre.push(elem));
            pre.lemma_flatten_push(elem);
        }
        i += 1;
    }
    r
}

pub fn join_all(lines: &Vec<String>) -> (r: String)
    ensures
        r@ == lines.deep_view().flatten(),
{
    let r = join_range(lines, 0, lines.len());
    proof {
        assert(lines.deep_view().subrange(0, lines@.len() as int) =~= lines.deep_view());
    }
    r
}

pub fn repeat_char(c: char, n: usize) -> (r: String)
    ensures
        r@ == Seq::new(n as nat, |i: int| c),
{
    let mut r = String::new();
    let mut i: usize = 0;
    while i < n
        invariant
            i <= n,
            r@ == Seq::new(i as nat, |j: int| c),
        decreases n - i,
    {
        push_char(&mut r, c);
        proof {
            assert(Seq::new(i as nat, |j: int| c).push(c) =~= Seq::new((i + 1) as nat, |j: int| c));
        }
        i += 1;
    }
    r
}

/// The white-space characters, as Unicode defines the `White_Space` property.
pub open spec fn is_space(c: char) -> bool {
    let u = c as u32;
    u == 0x20 || (0x9 <= u && u <= 0xd) || u == 0x85 || u == 0xa0 || u == 0x1680 || (0x2000 <= u
        && u <= 0x200a) || u == 0x2028 || u == 0x2029 || u == 0x202f || u == 0x205f || u == 0x3000
}

pub fn char_is_space(c: char) -> (b: bool)
    ensures
        b == is_space(c),
{
    let u = c as u32;
    u == 0x20 || (0x9 <= u && u <= 0xd) || u == 0x85 || u == 0xa0 || u == 0x1680 || (0x2000 <= u
        && u <= 0x200a) || u == 0x2028 || u == 0x2029 || u == 0x202f || u == 0x205f || u == 0x3000
}

pub open spec fn drop_leading_spaces(s: Seq<char>) -> Seq<char>
    decreases s.len(),
{
    if s.len() > 0 && is_space(s[0]) {
        drop_leading_spaces(s.drop_first())
    } else {
        s
    }
}

pub open spec fn drop_trailing_spaces(s: Seq<char>) -> Seq<char>
    decreases s.len(),
{
    if s.len() > 0 && is_space(s.last()) {
        drop_trailing_spaces(s.drop_last())
    } else {
        s
    }
}

/// The text with leading and trailing white space removed.
pub open spec fn trim_spec(s: Seq<char>) -> Seq<char> {
    drop_trailing_spaces(drop_leading_spaces(s))
}

proof fn lemma_drop_leading_spaces(s: Seq<char>, k: int)
    requires
        0 <= k <= s.len(),
        forall|j: int| 0 <= j < k ==> is_space(s[j]),
        k < s.len() ==> !is_space(s[k]),
    ensures
        drop_leading_spaces(s) =~= s.subrange(k, s.len() as int),
    decreases s.len(),
{
    if s.len() > 0 && is_space(s[0]) {
        assert(k >= 1);
        lemma_drop_leading_spaces(s.drop_first(), k - 1);
        assert(s.drop_first().subrange(k - 1, s.drop_first().len() as int) =~= s.subrange(
            k,
            s.len() as int,
        ));
    } else {
        assert(k == 0);
        assert(s.subrange(0, s.len() as int) =~= s);
    }
}

proof fn lemma_drop_trailing_spaces(s: Seq<char>, k: int)
    requires
        0 <= k <= s.len(),
        forall|j: int| k <= j < s.len() ==> is_space(s[j]),
        k > 0 ==> !is_space(s[k - 1]),
    ensures
        drop_trailing_spaces(s) =~= s.subrange(0, k),
    decreases s.len(),
{
    if s.len() > 0 && is_space(s.last()) {
        assert(k <= s.len() - 1);
        lemma_drop_trailing_spaces(s.drop_last(), k);
        assert(s.drop_last().subrange(0, k) =~= s.subrange(0, k));
    } else {
        assert(k == s.len());
        assert(s.subrange(0, s.len() as int) =~= s);
    }
}

pub fn trim(s: &str) -> (r: String)
    ensures
        r@ == trim_spec(s@),
{
    let n = s.unicode_len();
    let mut start: usize = 0;
    while start < n && char_is_space(s.get_char(start))
        invariant
            start <= n,
            n == s@.len(),
            forall|j: int| 0 <= j < start ==> is_space(s@[j]),
        decreases n - start,
    {
        start += 1;
    }
    proof {
        lemma_drop_leading_spaces(s@, start as int);
    }
    let ghost mid = s@.subrange(start as int, n as int);
    let mut end: usize = n;
    while end > start && char_is_space(s.get_char(end - 1))
        invariant
            start <= end <= n,
            n == s@.len(),
            forall|j: int| end <= j < n ==> is_space(s@[j]),
        decreases end,
    {
        end -= 1;
    }
    proof {
        lemma_drop_trailing_spaces(mid, end - start);
        assert(mid.subrange(0, end - start) =~= s@.subrange(start as int, end as int));
    }
    let piece = s.substring_char(start, end);
    String::from_str(piece)
}

pub open spec fn is_digit(c: char) -> bool {
    0x30 <= (c as u32) && (c as u32) <= 0x39
}

pub open spec fn digit_val(c: char) -> nat {
    ((c as u32) - 0x30) as nat
}

/// The value of a string of decimal digits.
pub open spec fn digits_val(s: Seq<char>) -> nat
    decreases s.len(),
{
    if s.len() == 0 {
        0
    } else {
        digits_val(s.drop_last()) * 10 + digit_val(s.last())
    }
}

pub open spec fn all_digits(s: Seq<char>) -> bool {
    forall|j: int| 0 <= j < s.len() ==> is_digit(s[j])
}

/// What `usize::from_str` accepts: an optional `'+'` sign followed by one or
/// more decimal digits whose value fits.
pub open spec fn parse_usize_spec(s: Seq<char>) -> Option<usize> {
    let body = if s.len() > 0 && s[0] == '+' {
        s.drop_first()
    } else {
        s
    };
    if body.len() == 0 || !all_digits(body) || digits_val(body) > usize::MAX {
        None
    } else {
        Some(digits_val(body) as usize)
    }
}

proof fn lemma_digits_val_prefix_le(s: Seq<char>, i: int)
    requires
        0 <= i <= s.len(),
    ensures
        digits_val(s.subrange(0, i)) <= digits_val(s),
    decreases s.len() - i,
{
    if i < s.len() {
        lemma_digits_val_prefix_le(s, i + 1);
        let a = s.subrange(0, i);
        let b = s.subrange(0, i + 1);
        assert(b.drop_last() =~= a);
        assert(digits_val(b) == digits_val(a) * 10 + digit_val(b.last()));
    } else {
        assert(s.subrange(0, i) =~= s);
    }
}

pub fn parse_usize(s: &str) -> (r: Option<usize>)
    ensures
        r == parse_usize_spec(s@),
{
    let n = s.unicode_len();
    let mut i: usize = 0;
    if n > 0 && s.get_char(0) == '+' {
        i = 1;
    }
    let ghost body = if s@.len() > 0 && s@[0] == '+' {
        s@.drop_first()
    } else {
        s@
    };
    let ghost off = i as int;
    proof {
        assert(body =~= s@.subrange(off, n as int));
    }
    if i >= n {
        assert(body.len() == 0);
        return None;
    }
    let mut val: usize = 0;
    while i < n
        invariant
            off <= i <= n,
            n == s@.len(),
            off == 0 || off == 1,
            body == (if s@.len() > 0 && s@[0] == '+' {
                s@.drop_first()
            } else {
                s@
            }),
            body == s@.subrange(off, n as int),
            all_digits(body.subrange(0, i - off)),
            val == digits_val(body.subrange(0, i - off)),
        decreases n - i,
    {
        let c = s.get_char(i);
        let u = c as u32;
        if u < 0x30 || u > 0x39 {
            assert(!is_digit(body[i - off]));
            return None;
        }
        let d = (u - 0x30) as usize;
        let ghost pre = body.subrange(0, i - off);
        let ghost cur = body.subrange(0, i + 1 - off);
        proof {
            assert(cur.drop_last() =~= pre);
            assert(cur.last() == s@[i as int]);
            assert(digits_val(cur) == digits_val(pre) * 10 + digit_val(cur.last()));
        }
        let next = match val.checked_mul(10) {
            Some(m) => m.checked_add(d),
            None => None,
        };
        match next {
            Some(v) => {
                val = v;
                i += 1;
            },
            None => {
                proof {
                    assert(val * 10 + d > usize::MAX);
                    assert(digit_val(cur.last()) == d as nat);
                    assert(digits_val(cur) > usize::MAX);
                    lemma_digits_val_prefix_le(body, i + 1 - off);
                    assert(digits_val(body) > usize::MAX);
                }
                return None;
            },
        }
    }
    proof {
        assert(body.subrange(0, n - off) =~= body);
    }
    Some(val)
}

/// Strict lexicographic order on character sequences, matching how byte-wise
/// comparison orders UTF-8 encoded strings.
pub open spec fn lex_lt(a: Seq<char>, b: Seq<char>) -> bool
    decreases a.len() + b.len(),
{
    if b.len() == 0 {
        false
    } else if a.len() == 0 {
        true
    } else if a[0] != b[0] {
        (a[0] as u32) < (b[0] as u32)
    } else {
        lex_lt(a.drop_first(), b.drop_first())
    }
}

pub proof fn lemma_lex_lt_total(a: Seq<char>, b: Seq<char>)
    ensures
        lex_lt(a, b) || lex_lt(b, a) || a =~= b,
        !(lex_lt(a, b) && lex_lt(b, a)),
    decreases a.len() + b.len(),
{
    if a.len() > 0 && b.len() > 0 && a[0] == b[0] {
        lemma_lex_lt_total(a.drop_first(), b.drop_first());
        if a.drop_first() == b.drop_first() {
            assert forall|i: int| 0 <= i < a.len() implies a[i] == b[i] by {
                if i >= 1 {
                    assert(a[i] == a.drop_first()[i - 1]);
                    assert(b[i] == b.drop_first()[i - 1]);
                }
            }
            assert(a =~= b);
        }
    } else if a.len() > 0 && b.len() > 0 {
        assert((a[0] as u32) != (b[0] as u32)) by {
            assert(a[0] != b[0]);
            if (a[0] as u32) == (b[0] as u32) {
                vstd::utf8::char_u32_cast(a[0], a[0] as u32);
                vstd::utf8::char_u32_cast(b[0], b[0] as u32);
            }
        }
    }
}

pub proof fn lemma_lex_lt_trans(a: Seq<char>, b: Seq<char>, c: Seq<char>)
    requires
        lex_lt(a, b),
        lex_lt(b, c),
    ensures
        lex_lt(a, c),
    decreases a.len() + b.len() + c.len(),
{
    if a.len() > 0 && b.len() > 0 && c.len() > 0 && a[0] == b[0] && b[0] == c[0] {
        lemma_lex_lt_trans(a.drop_first(), b.drop_first(), c.drop_first());
    }
}

pub fn str_lex_lt(a: &str, b: &str) -> (r: bool)
    ensures
        r == lex_lt(a@, b@),
{
    let na = a.unicode_len();
    let nb = b.unicode_len();
    let mut i: usize = 0;
    proof {
        assert(a@.skip(0) =~= a@);
        assert(b@.skip(0) =~= b@);
    }
    loop
        invariant
            i <= na,
            i <= nb,
            na == a@.len(),
            nb == b@.len(),
            forall|j: int| 0 <= j < i ==> a@[j] == b@[j],
            lex_lt(a@, b@) == lex_lt(a@.skip(i as int), b@.skip(i as int)),
        decreases na - i,
    {
        if i >= nb {
            assert(b@.skip(i as int).len() == 0);
            return false;
        }
        if i >= na {
            assert(a@.skip(i as int).len() == 0 && b@.skip(i as int).len() > 0);
            return true;
        }
        let ca = a.get_char(i);
        let cb = b.get_char(i);
        let ghost sa = a@.skip(i as int);
        let ghost sb = b@.skip(i as int);
        proof {
            assert(sa.len() > 0 && sb.len() > 0);
            assert(sa[0] == a@[i as int] && sb[0] == b@[i as int]);
            assert(sa.drop_first() =~= a@.skip(i + 1));
            assert(sb.drop_first() =~= b@.skip(i + 1));
        }
        if ca != cb {
            return (ca as u32) < (cb as u32);
        }
        i += 1;
    }
}

} // verus!
