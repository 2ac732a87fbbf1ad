use vstd::prelude::*;
use vstd::string::*;
use crate::mapping::{UrlMap, UrlSet};

verus! {

// ---------------------------------------------------------------------------
// The image-embed construct
//
// A construct has the shape `![<alt>](<url><trailing>)`: the alt text runs,
// without a newline, to the first `](` from which the rest of the construct
// matches; the URL starts with `http` and runs to the next whitespace or `)`;
// after the URL comes optional whitespace and then, with no intervening
// newline, the closing `)`. Scanning is leftmost-first and non-overlapping:
// each search resumes at the end of the previous match.
// ---------------------------------------------------------------------------

/// The Unicode White_Space characters: the whitespace that ends a URL and may
/// stand between it and the closing parenthesis.
pub open spec fn is_ws_char(c: char) -> bool {
    c == ' ' || c == '\t' || c == '\n' || c == '\u{b}' || c == '\u{c}' || c == '\r'
        || c == '\u{85}' || c == '\u{a0}' || c == '\u{1680}' || c == '\u{2000}'
        || c == '\u{2001}' || c == '\u{2002}' || c == '\u{2003}' || c == '\u{2004}'
        || c == '\u{2005}' || c == '\u{2006}' || c == '\u{2007}' || c == '\u{2008}'
        || c == '\u{2009}' || c == '\u{200a}' || c == '\u{2028}' || c == '\u{2029}'
        || c == '\u{202f}' || c == '\u{205f}' || c == '\u{3000}'
}

/// A character that may stand inside a URL: anything but whitespace and `)`.
pub open spec fn is_url_char(c: char) -> bool {
    !is_ws_char(c) && c != ')'
}

fn is_ws_char_exec(c: char) -> (r: bool)
    ensures
        r == is_ws_char(c),
{
    c == ' ' || c == '\t' || c == '\n' || c == '\u{b}' || c == '\u{c}' || c == '\r'
        || c == '\u{85}' || c == '\u{a0}' || c == '\u{1680}' || c == '\u{2000}'
        || c == '\u{2001}' || c == '\u{2002}' || c == '\u{2003}' || c == '\u{2004}'
        || c == '\u{2005}' || c == '\u{2006}' || c == '\u{2007}' || c == '\u{2008}'
        || c == '\u{2009}' || c == '\u{200a}' || c == '\u{2028}' || c == '\u{2029}'
        || c == '\u{202f}' || c == '\u{205f}' || c == '\u{3000}'
}

fn is_url_char_exec(c: char) -> (r: bool)
    ensures
        r == is_url_char(c),
{
    !is_ws_char_exec(c) && c != ')'
}

/// End of the maximal run of URL characters from `i`.
pub open spec fn url_run_end(t: Seq<char>, i: int) -> int
    decreases t.len() - i when 0 <= i <= t.len()
{
    if i >= t.len() {
        i
    } else if is_url_char(t[i]) {
        url_run_end(t, i + 1)
    } else {
        i
    }
}

/// End of the maximal run of whitespace characters from `i`.
pub open spec fn ws_run_end(t: Seq<char>, i: int) -> int
    decreases t.len() - i when 0 <= i <= t.len()
{
    if i >= t.len() {
        i
    } else if is_ws_char(t[i]) {
        ws_run_end(t, i + 1)
    } else {
        i
    }
}

/// The first `)` at or after `i` reachable without crossing a newline; `None`
/// when a newline or the end of the text comes first.
pub open spec fn close_from(t: Seq<char>, i: int) -> Option<int>
    decreases t.len() - i when 0 <= i <= t.len()
{
    if i >= t.len() {
        None
    } else if t[i] == ')' {
        Some(i)
    } else if t[i] == '\n' {
        None
    } else {
        close_from(t, i + 1)
    }
}

/// Given the `](` whose `]` stands at `j`: the URL span and construct end if
/// the tail matches — a URL beginning `http`, optional whitespace, then the
/// closing `)` with no newline in between. Returns (url_start, url_end,
/// end of the whole construct, exclusive).
pub open spec fn body_at(t: Seq<char>, j: int) -> Option<(int, int, int)>
    recommends
        0 <= j,
        j + 2 <= t.len(),
{
    let us = j + 2;
    if us + 4 <= t.len() && t[us] == 'h' && t[us + 1] == 't' && t[us + 2] == 't' && t[us + 3]
        == 'p' {
        let ue = url_run_end(t, us);
        match close_from(t, ws_run_end(t, ue)) {
            Some(p) => Some((us, ue, p + 1)),
            None => None,
        }
    } else {
        None
    }
}

/// Scan the alt text from `j` for the first `](` from which the rest of the
/// construct matches; the alt text cannot contain a newline.
pub open spec fn alt_scan(t: Seq<char>, j: int) -> Option<(int, int, int)>
    decreases t.len() - j when 0 <= j <= t.len()
{
    if j >= t.len() || t[j] == '\n' {
        None
    } else if t[j] == ']' && j + 1 < t.len() && t[j + 1] == '(' && body_at(t, j) is Some {
        body_at(t, j)
    } else {
        alt_scan(t, j + 1)
    }
}

/// A match of the whole construct starting exactly at `s`. Returns
/// (url_start, url_end, end of construct, exclusive) when `t` at `s` begins
/// `![`, some alt text and `](` follow, and the tail matches.
pub open spec fn match_at(t: Seq<char>, s: int) -> Option<(int, int, int)> {
    if 0 <= s && s + 2 <= t.len() && t[s] == '!' && t[s + 1] == '[' {
        alt_scan(t, s + 2)
    } else {
        None
    }
}

// ---------------------------------------------------------------------------
// Bounds of a match
// ---------------------------------------------------------------------------

proof fn lemma_url_run_end(t: Seq<char>, i: int)
    requires
        0 <= i <= t.len(),
    ensures
        i <= url_run_end(t, i) <= t.len(),
        forall|j: int| i <= j < url_run_end(t, i) ==> is_url_char(t[j]),
        url_run_end(t, i) < t.len() ==> !is_url_char(t[url_run_end(t, i)]),
    decreases t.len() - i,
{
    if i < t.len() && is_url_char(t[i]) {
        lemma_url_run_end(t, i + 1);
    }
}

proof fn lemma_ws_run_end(t: Seq<char>, i: int)
    requires
        0 <= i <= t.len(),
    ensures
        i <= ws_run_end(t, i) <= t.len(),
    decreases t.len() - i,
{
    if i < t.len() && is_ws_char(t[i]) {
        lemma_ws_run_end(t, i + 1);
    }
}

proof fn lemma_close_from(t: Seq<char>, i: int)
    requires
        0 <= i <= t.len(),
    ensures
        (match close_from(t, i) {
            Some(p) => i <= p < t.len() && t[p] == ')',
            None => true,
        }),
    decreases t.len() - i,
{
    if i < t.len() && t[i] != ')' && t[i] != '\n' {
        lemma_close_from(t, i + 1);
    }
}

proof fn lemma_alt_scan_bounds(t: Seq<char>, j: int, us: int, ue: int, e: int)
    requires
        0 <= j <= t.len(),
        alt_scan(t, j) == Some((us, ue, e)),
    ensures
        j + 2 <= us,
        us + 4 <= ue,
        ue < e <= t.len(),
        t[e - 1] == ')',
    decreases t.len() - j,
{
    if j >= t.len() || t[j] == '\n' {
    } else if t[j] == ']' && j + 1 < t.len() && t[j + 1] == '(' && body_at(t, j) is Some {
        lemma_url_run_end(t, j + 2);
        lemma_ws_run_end(t, url_run_end(t, j + 2));
        lemma_close_from(t, ws_run_end(t, url_run_end(t, j + 2)));
    } else {
        lemma_alt_scan_bounds(t, j + 1, us, ue, e);
    }
}

/// A match's spans are ordered and lie inside the text: the URL starts after
/// `![` and at least the `](` later, holds at least `http`, and ends before
/// the closing `)`.
pub proof fn lemma_match_at_bounds(t: Seq<char>, s: int, us: int, ue: int, e: int)
    requires
        match_at(t, s) == Some((us, ue, e)),
    ensures
        s + 4 <= us,
        us + 4 <= ue,
        ue < e <= t.len(),
        0 <= s,
        t[s] == '!',
        t[s + 1] == '[',
        t[e - 1] == ')',
{
    lemma_alt_scan_bounds(t, s + 2, us, ue, e);
}

// ---------------------------------------------------------------------------
// All matches of a text
// ---------------------------------------------------------------------------

/// All matches from position `i` on, leftmost first, each later search
/// resuming at the end of the previous match. Each entry is
/// (start, url_start, url_end, end).
pub open spec fn matches_from(t: Seq<char>, i: int) -> Seq<(int, int, int, int)>
    decreases t.len() - i when 0 <= i <= t.len()
    via matches_from_decreases
{
    if i >= t.len() {
        Seq::empty()
    } else {
        match match_at(t, i) {
            Some((us, ue, e)) => seq![(i, us, ue, e)] + matches_from(t, e),
            None => matches_from(t, i + 1),
        }
    }
}

#[via_fn]
proof fn matches_from_decreases(t: Seq<char>, i: int) {
    if 0 <= i < t.len() {
        match match_at(t, i) {
            Some((us, ue, e)) => {
                lemma_match_at_bounds(t, i, us, ue, e);
            },
            None => {},
        }
    }
}

/// All matches of the construct in `t`.
pub open spec fn matches_of(t: Seq<char>) -> Seq<(int, int, int, int)> {
    matches_from(t, 0)
}

/// The URL substring of one match.
pub open spec fn url_of(t: Seq<char>, m: (int, int, int, int)) -> Seq<char> {
    t.subrange(m.1, m.2)
}

/// What holds of the head of the match list: matches before its start fail,
/// the match itself holds, and the remaining matches resume at its end.
proof fn lemma_matches_head(t: Seq<char>, i: int)
    requires
        0 <= i <= t.len(),
    ensures
        matches_from(t, i).len() == 0 ==> forall|j: int|
            i <= j < t.len() ==> match_at(t, j) is None,
        matches_from(t, i).len() > 0 ==> {
            let m = matches_from(t, i)[0];
            &&& i <= m.0
            &&& match_at(t, m.0) == Some((m.1, m.2, m.3))
            &&& forall|j: int| i <= j < m.0 ==> match_at(t, j) is None
            &&& matches_from(t, m.3) == matches_from(t, i).drop_first()
        },
    decreases t.len() - i,
{
    if i < t.len() {
        match match_at(t, i) {
            Some((us, ue, e)) => {
                lemma_match_at_bounds(t, i, us, ue, e);
                assert(matches_from(t, i) == seq![(i, us, ue, e)] + matches_from(t, e));
                assert(matches_from(t, i).drop_first() =~= matches_from(t, e));
            },
            None => {
                lemma_matches_head(t, i + 1);
            },
        }
    }
}

// ---------------------------------------------------------------------------
// Executable scanner
// ---------------------------------------------------------------------------

/// One occurrence of the construct: the span of the whole construct and the
/// span of its URL, in character positions.
pub struct Match {
    pub start: usize,
    pub url_start: usize,
    pub url_end: usize,
    pub end: usize,
}

impl View for Match {
    type V = (int, int, int, int);

    open spec fn view(&self) -> (int, int, int, int) {
        (self.start as int, self.url_start as int, self.url_end as int, self.end as int)
    }
}

/// The occurrence list stands for the given span list.
pub open spec fn abstracts(ms: Seq<Match>, sm: Seq<(int, int, int, int)>) -> bool {
    ms.len() == sm.len() && forall|k: int| 0 <= k < ms.len() ==> #[trigger] ms[k]@ == sm[k]
}

/// The characters of a string, for position-wise scanning.
pub fn str_chars(s: &str) -> (r: Vec<char>)
    ensures
        r@ == s@,
{
    let n = s.unicode_len();
    let mut v: Vec<char> = Vec::new();
    let mut i: usize = 0;
    while i < n
        invariant
            i <= n == s@.len(),
            v@ =~= s@.subrange(0, i as int),
        decreases n - i,
    {
        v.push(s.get_char(i));
        assert(v@ =~= s@.subrange(0, i + 1));
        i = i + 1;
    }
    assert(s@.subrange(0, n as int) =~= s@);
    v
}

fn url_run_end_exec(t: &Vec<char>, i: usize) -> (r: usize)
    requires
        i <= t@.len(),
    ensures
        r == url_run_end(t@, i as int),
        i <= r <= t@.len(),
{
    let mut j = i;
    while j < t.len() && is_url_char_exec(t[j])
        invariant
            i <= j <= t@.len(),
            url_run_end(t@, i as int) == url_run_end(t@, j as int),
        decreases t@.len() - j,
    {
        assert(url_run_end(t@, j as int) == url_run_end(t@, j + 1));
        j = j + 1;
    }
    proof {
        lemma_url_run_end(t@, i as int);
    }
    j
}

fn ws_run_end_exec(t: &Vec<char>, i: usize) -> (r: usize)
    requires
        i <= t@.len(),
    ensures
        r == ws_run_end(t@, i as int),
        i <= r <= t@.len(),
{
    let mut j = i;
    while j < t.len() && is_ws_char_exec(t[j])
        invariant
            i <= j <= t@.len(),
            ws_run_end(t@, i as int) == ws_run_end(t@, j as int),
        decreases t@.len() - j,
    {
        assert(ws_run_end(t@, j as int) == ws_run_end(t@, j + 1));
        j = j + 1;
    }
    proof {
        lemma_ws_run_end(t@, i as int);
    }
    j
}

fn close_from_exec(t: &Vec<char>, i: usize) -> (r: Option<usize>)
    requires
        i <= t@.len(),
    ensures
        (match r {
            Some(p) => close_from(t@, i as int) == Some(p as int) && i <= p < t@.len(),
            None => close_from(t@, i as int) is None,
        }),
{
    let mut j = i;
    while j < t.len()
        invariant
            i <= j <= t@.len(),
            close_from(t@, i as int) == close_from(t@, j as int),
        decreases t@.len() - j,
    {
        if t[j] == ')' {
            return Some(j);
        }
        if t[j] == '\n' {
            return None;
        }
        assert(close_from(t@, j as int) == close_from(t@, j + 1));
        j = j + 1;
    }
    None
}

fn body_at_exec(t: &Vec<char>, j: usize) -> (r: Option<(usize, usize, usize)>)
    requires
        j + 1 < t@.len(),
    ensures
        (match r {
            Some(m) => body_at(t@, j as int) == Some((m.0 as int, m.1 as int, m.2 as int))
                && m.2 <= t@.len(),
            None => body_at(t@, j as int) is None,
        }),
{
    let n = t.len();
    let us = j + 2;
    if n - us >= 4 && t[us] == 'h' && t[us + 1] == 't' && t[us + 2] == 't' && t[us + 3]
        == 'p' {
        let ue = url_run_end_exec(t, us);
        let w = ws_run_end_exec(t, ue);
        match close_from_exec(t, w) {
            Some(p) => Some((us, ue, p + 1)),
            None => None,
        }
    } else {
        None
    }
}

fn alt_scan_exec(t: &Vec<char>, j: usize) -> (r: Option<(usize, usize, usize)>)
    requires
        j <= t@.len(),
    ensures
        (match r {
            Some(m) => alt_scan(t@, j as int) == Some((m.0 as int, m.1 as int, m.2 as int))
                && m.2 <= t@.len(),
            None => alt_scan(t@, j as int) is None,
        }),
{
    let mut k = j;
    while k < t.len()
        invariant
            j <= k <= t@.len(),
            alt_scan(t@, j as int) == alt_scan(t@, k as int),
        decreases t@.len() - k,
    {
        if t[k] == '\n' {
            return None;
        }
        if t[k] == ']' && k + 1 < t.len() && t[k + 1] == '(' {
            match body_at_exec(t, k) {
                Some(m) => {
                    return Some(m);
                },
                None => {},
            }
        }
        assert(alt_scan(t@, k as int) == alt_scan(t@, k + 1));
        k = k + 1;
    }
    None
}

/// Scan a text for every occurrence of the construct, leftmost first and
/// non-overlapping, recording the span of each construct and of its URL.
/// Both extraction and rewriting go through this one scanner, so their spans
/// agree.
pub fn find_matches(t: &Vec<char>) -> (r: Vec<Match>)
    ensures
        abstracts(r@, matches_of(t@)),
{
    let mut out: Vec<Match> = Vec::new();
    let ghost mut done: Seq<(int, int, int, int)> = Seq::empty();
    let mut i: usize = 0;
    while i < t.len()
        invariant
            i <= t@.len(),
            abstracts(out@, done),
            matches_of(t@) == done + matches_from(t@, i as int),
        decreases t@.len() - i,
    {
        let mut stepped = false;
        if t[i] == '!' && i + 1 < t.len() && t[i + 1] == '[' {
            match alt_scan_exec(t, i + 2) {
                Some((us, ue, e)) => {
                    proof {
                        lemma_match_at_bounds(t@, i as int, us as int, ue as int, e as int);
                    }
                    out.push(Match { start: i, url_start: us, url_end: ue, end: e });
                    proof {
                        let m = (i as int, us as int, ue as int, e as int);
                        assert(matches_from(t@, i as int) == seq![m] + matches_from(t@, e as int));
                        done = done.push(m);
                        assert(done + matches_from(t@, e as int) =~= done.drop_last() + (seq![m]
                            + matches_from(t@, e as int)));
                    }
                    i = e;
                    stepped = true;
                },
                None => {},
            }
        }
        if !stepped {
            assert(match_at(t@, i as int) is None);
            assert(matches_from(t@, i as int) == matches_from(t@, i + 1));
            i = i + 1;
        }
    }
    proof {
        assert(matches_of(t@) =~= done);
    }
    out
}

// ---------------------------------------------------------------------------
// Extraction
// ---------------------------------------------------------------------------

/// The set of URLs named by a list of matches.
pub open spec fn urls_of_matches(t: Seq<char>, ms: Seq<(int, int, int, int)>) -> Set<Seq<char>>
    decreases ms.len(),
{
    if ms.len() == 0 {
        Set::empty()
    } else {
        urls_of_matches(t, ms.drop_last()).insert(url_of(t, ms.last()))
    }
}

/// The set of distinct image URLs a document references.
pub open spec fn urls_of(t: Seq<char>) -> Set<Seq<char>> {
    urls_of_matches(t, matches_of(t))
}

/// Collect into `set` every image URL the document references; called once
/// per document, the set accumulates the union over the whole batch.
pub fn collect_urls(contents: &str, set: &mut UrlSet)
    requires
        old(set).wf(),
    ensures
        final(set).wf(),
        final(set)@ == old(set)@.union(urls_of(contents@)),
{
    let t = str_chars(contents);
    let ms = find_matches(&t);
    let ghost sm = matches_of(t@);
    let mut k: usize = 0;
    while k < ms.len()
        invariant
            set.wf(),
            k <= ms@.len(),
            t@ == contents@,
            abstracts(ms@, sm),
            sm == matches_of(t@),
            set@ == old(set)@.union(urls_of_matches(t@, sm.subrange(0, k as int))),
        decreases ms@.len() - k,
    {
        proof {
            lemma_matches_bounds(t@, sm, k as int);
            assert(ms@[k as int]@ == sm[k as int]);
        }
        let u = contents.substring_char(ms[k].url_start, ms[k].url_end).to_owned();
        set.insert(u);
        proof {
            let pre = sm.subrange(0, k as int);
            let cur = sm.subrange(0, k + 1);
            assert(cur.drop_last() =~= pre);
            assert(cur.last() == sm[k as int]);
            assert(u@ == url_of(t@, sm[k as int]));
            assert(old(set)@.union(urls_of_matches(t@, pre)).insert(url_of(t@, sm[k as int]))
                =~= old(set)@.union(urls_of_matches(t@, cur)));
        }
        k = k + 1;
    }
    proof {
        assert(sm.subrange(0, sm.len() as int) =~= sm);
    }
}

/// Every recorded span of the match list lies inside the text, in order.
pub proof fn lemma_matches_bounds(t: Seq<char>, sm: Seq<(int, int, int, int)>, k: int)
    requires
        sm == matches_of(t),
        0 <= k < sm.len(),
    ensures
        0 <= sm[k].0,
        sm[k].0 + 4 <= sm[k].1,
        sm[k].1 + 4 <= sm[k].2,
        sm[k].2 < sm[k].3 <= t.len(),
        match_at(t, sm[k].0) == Some((sm[k].1, sm[k].2, sm[k].3)),
{
    lemma_matches_from_index(t, 0, k);
}

proof fn lemma_matches_from_index(t: Seq<char>, i: int, k: int)
    requires
        0 <= i <= t.len(),
        0 <= k < matches_from(t, i).len(),
    ensures
        i <= matches_from(t, i)[k].0,
        matches_from(t, i)[k].0 + 4 <= matches_from(t, i)[k].1,
        matches_from(t, i)[k].1 + 4 <= matches_from(t, i)[k].2,
        matches_from(t, i)[k].2 < matches_from(t, i)[k].3 <= t.len(),
        match_at(t, matches_from(t, i)[k].0) == Some(
            (matches_from(t, i)[k].1, matches_from(t, i)[k].2, matches_from(t, i)[k].3),
        ),
    decreases t.len() - i,
{
    if i < t.len() {
        match match_at(t, i) {
            Some((us, ue, e)) => {
                lemma_match_at_bounds(t, i, us, ue, e);
                if k > 0 {
                    lemma_matches_from_index(t, e, k - 1);
                    assert(matches_from(t, i)[k] == matches_from(t, e)[k - 1]);
                }
            },
            None => {
                lemma_matches_from_index(t, i + 1, k);
            },
        }
    }
}

// ---------------------------------------------------------------------------
// Rewriting
// ---------------------------------------------------------------------------

/// The rewritten text from position `i` on: each matched construct whose URL
/// the mapping holds has exactly its URL span replaced by the mapped link;
/// a construct whose URL the mapping lacks is emitted unchanged, as is all
/// text outside matches.
pub open spec fn rewrite_from(t: Seq<char>, i: int, m: Map<Seq<char>, Seq<char>>) -> Seq<char>
    decreases t.len() - i when 0 <= i <= t.len()
    via rewrite_from_decreases
{
    if i >= t.len() {
        Seq::empty()
    } else {
        match match_at(t, i) {
            Some((us, ue, e)) => if m.dom().contains(t.subrange(us, ue)) {
                t.subrange(i, us) + m[t.subrange(us, ue)] + t.subrange(ue, e) + rewrite_from(
                    t,
                    e,
                    m,
                )
            } else {
                t.subrange(i, e) + rewrite_from(t, e, m)
            },
            None => seq![t[i]] + rewrite_from(t, i + 1, m),
        }
    }
}

#[via_fn]
proof fn rewrite_from_decreases(t: Seq<char>, i: int, m: Map<Seq<char>, Seq<char>>) {
    if 0 <= i < t.len() {
        match match_at(t, i) {
            Some((us, ue, e)) => {
                lemma_match_at_bounds(t, i, us, ue, e);
            },
            None => {},
        }
    }
}

/// The whole rewritten document.
pub open spec fn rewrite_spec(t: Seq<char>, m: Map<Seq<char>, Seq<char>>) -> Seq<char> {
    rewrite_from(t, 0, m)
}

/// Text in which no match starts passes through a rewrite unchanged.
proof fn lemma_rewrite_skip(t: Seq<char>, i: int, s: int, m: Map<Seq<char>, Seq<char>>)
    requires
        0 <= i <= s <= t.len(),
        forall|j: int| i <= j < s ==> match_at(t, j) is None,
    ensures
        rewrite_from(t, i, m) == t.subrange(i, s) + rewrite_from(t, s, m),
    decreases s - i,
{
    if i < s {
        lemma_rewrite_skip(t, i + 1, s, m);
        assert(seq![t[i]] + (t.subrange(i + 1, s) + rewrite_from(t, s, m)) =~= t.subrange(i, s)
            + rewrite_from(t, s, m));
    } else {
        assert(t.subrange(i, i) + rewrite_from(t, i, m) =~= rewrite_from(t, i, m));
    }
}

proof fn lemma_rewrite_untouched_from(t: Seq<char>, i: int, m: Map<Seq<char>, Seq<char>>)
    requires
        0 <= i <= t.len(),
        forall|k: int|
            0 <= k < matches_from(t, i).len() ==> !m.dom().contains(
                #[trigger] url_of(t, matches_from(t, i)[k]),
            ),
    ensures
        rewrite_from(t, i, m) == t.subrange(i, t.len() as int),
    decreases t.len() - i,
{
    lemma_matches_head(t, i);
    if matches_from(t, i).len() == 0 {
        lemma_rewrite_skip(t, i, t.len() as int, m);
        assert(rewrite_from(t, t.len() as int, m) =~= Seq::<char>::empty());
        assert(t.subrange(i, t.len() as int) + Seq::<char>::empty() =~= t.subrange(
            i,
            t.len() as int,
        ));
    } else {
        let m0 = matches_from(t, i)[0];
        lemma_matches_from_index(t, i, 0);
        lemma_rewrite_skip(t, i, m0.0, m);
        assert(url_of(t, matches_from(t, i)[0]) == t.subrange(m0.1, m0.2));
        assert forall|k: int| 0 <= k < matches_from(t, m0.3).len() implies !m.dom().contains(
            #[trigger] url_of(t, matches_from(t, m0.3)[k]),
        ) by {
            assert(matches_from(t, m0.3)[k] == matches_from(t, i)[k + 1]);
            assert(!m.dom().contains(url_of(t, matches_from(t, i)[k + 1])));
        }
        lemma_rewrite_untouched_from(t, m0.3, m);
        assert(t.subrange(i, m0.0) + (t.subrange(m0.0, m0.3) + t.subrange(m0.3, t.len() as int))
            =~= t.subrange(i, t.len() as int));
    }
}

/// Law (unresolved occurrences preserved): a document none of whose URLs the
/// mapping resolves — in particular any document rewritten against an empty
/// mapping — comes back identical, character for character.
pub proof fn lemma_unresolved_preserved(t: Seq<char>, m: Map<Seq<char>, Seq<char>>)
    requires
        forall|k: int|
            0 <= k < matches_of(t).len() ==> !m.dom().contains(
                #[trigger] url_of(t, matches_of(t)[k]),
            ),
    ensures
        rewrite_spec(t, m) == t,
{
    assert forall|k: int| 0 <= k < matches_from(t, 0).len() implies !m.dom().contains(
        #[trigger] url_of(t, matches_from(t, 0)[k]),
    ) by {
        assert(matches_from(t, 0) == matches_of(t));
        assert(!m.dom().contains(url_of(t, matches_of(t)[k])));
    }
    lemma_rewrite_untouched_from(t, 0, m);
    assert(t.subrange(0, t.len() as int) =~= t);
}

/// Law (span preservation): where the scan finds exactly one construct and
/// its URL resolved, the rewritten text is the original with exactly the URL
/// span replaced by the link — everything before the URL, the rest of the
/// construct after it, and all surrounding text are unchanged.
pub proof fn lemma_span_preservation(t: Seq<char>, m: Map<Seq<char>, Seq<char>>)
    requires
        matches_of(t).len() == 1,
        m.dom().contains(url_of(t, matches_of(t)[0])),
    ensures
        ({
            let mt = matches_of(t)[0];
            rewrite_spec(t, m) == t.subrange(0, mt.1) + m[url_of(t, mt)] + t.subrange(
                mt.2,
                t.len() as int,
            )
        }),
{
    let mt = matches_of(t)[0];
    lemma_matches_from_index(t, 0, 0);
    lemma_matches_head(t, 0);
    lemma_rewrite_skip(t, 0, mt.0, m);
    assert(matches_from(t, mt.3) =~= Seq::<(int, int, int, int)>::empty());
    lemma_matches_head(t, mt.3);
    lemma_rewrite_skip(t, mt.3, t.len() as int, m);
    assert(rewrite_from(t, t.len() as int, m) =~= Seq::<char>::empty());
    assert(rewrite_from(t, mt.3, m) =~= t.subrange(mt.3, t.len() as int));
    assert(rewrite_from(t, mt.0, m) == t.subrange(mt.0, mt.1) + m[url_of(t, mt)] + t.subrange(
        mt.2,
        mt.3,
    ) + rewrite_from(t, mt.3, m));
    assert(t.subrange(0, mt.0) + (t.subrange(mt.0, mt.1) + m[url_of(t, mt)] + t.subrange(
        mt.2,
        mt.3,
    ) + t.subrange(mt.3, t.len() as int)) =~= t.subrange(0, mt.1) + m[url_of(t, mt)] + t.subrange(
        mt.2,
        t.len() as int,
    ));
}

/// Rewrite one document against the completed mapping: every occurrence whose
/// URL resolved is replaced in place by its local link; every other
/// occurrence, and all text outside occurrences, is emitted byte-for-byte.
pub fn replace_urls(contents: &str, mapping: &UrlMap) -> (r: String)
    requires
        mapping.wf(),
    ensures
        r@ == rewrite_spec(contents@, mapping@),
{
    let t = str_chars(contents);
    let ms = find_matches(&t);
    let ghost sm = matches_of(t@);
    let mut out = String::new();
    let mut pos: usize = 0;
    let mut k: usize = 0;
    proof {
        assert(matches_from(t@, 0) =~= sm.subrange(0, sm.len() as int));
        assert(Seq::<char>::empty() + rewrite_from(t@, 0, mapping@) =~= rewrite_from(
            t@,
            0,
            mapping@,
        ));
    }
    while k < ms.len()
        invariant
            mapping.wf(),
            k <= ms@.len(),
            t@ == contents@,
            abstracts(ms@, sm),
            sm == matches_of(t@),
            pos <= t@.len(),
            matches_from(t@, pos as int) == sm.subrange(k as int, sm.len() as int),
            rewrite_spec(t@, mapping@) == out@ + rewrite_from(t@, pos as int, mapping@),
        decreases ms@.len() - k,
    {
        let ghost mv = sm[k as int];
        let ghost out0 = out@;
        proof {
            lemma_matches_bounds(t@, sm, k as int);
            assert(ms@[k as int]@ == sm[k as int]);
            lemma_matches_head(t@, pos as int);
            assert(matches_from(t@, pos as int)[0] == mv);
            lemma_rewrite_skip(t@, pos as int, mv.0, mapping@);
        }
        let us = ms[k].url_start;
        let ue = ms[k].url_end;
        let e = ms[k].end;
        let url = contents.substring_char(us, ue).to_owned();
        let ghost seg = t@.subrange(pos as int, mv.0);
        let ghost tail = rewrite_from(t@, mv.3, mapping@);
        match mapping.get(&url) {
            Some(link) => {
                out.append(contents.substring_char(pos, us));
                out.append(link.as_str());
                out.append(contents.substring_char(ue, e));
                proof {
                    let pre = t@.subrange(mv.0, mv.1);
                    let rep = mapping@[t@.subrange(mv.1, mv.2)];
                    let post = t@.subrange(mv.2, mv.3);
                    assert(rewrite_from(t@, mv.0, mapping@) == pre + rep + post + tail);
                    assert(t@.subrange(pos as int, mv.1) =~= seg + pre);
                    assert(out@ =~= out0 + (seg + pre) + rep + post);
                    assert(out0 + rewrite_from(t@, pos as int, mapping@) =~= out@ + tail);
                }
            },
            None => {
                out.append(contents.substring_char(pos, e));
                proof {
                    let whole = t@.subrange(mv.0, mv.3);
                    assert(rewrite_from(t@, mv.0, mapping@) == whole + tail);
                    assert(t@.subrange(pos as int, mv.3) =~= seg + whole);
                    assert(out@ =~= out0 + (seg + whole));
                    assert(out0 + rewrite_from(t@, pos as int, mapping@) =~= out@ + tail);
                }
            },
        }
        proof {
            assert(matches_from(t@, mv.3) == matches_from(t@, pos as int).drop_first());
            assert(matches_from(t@, mv.3) =~= sm.subrange(k + 1, sm.len() as int));
        }
        pos = e;
        k = k + 1;
    }
    let ghost out1 = out@;
    proof {
        assert(matches_from(t@, pos as int).len() == 0);
        lemma_matches_head(t@, pos as int);
        lemma_rewrite_skip(t@, pos as int, t@.len() as int, mapping@);
        assert(rewrite_from(t@, t@.len() as int, mapping@) =~= Seq::<char>::empty());
    }
    out.append(contents.substring_char(pos, contents.unicode_len()));
    proof {
        assert(out@ =~= out1 + t@.subrange(pos as int, t@.len() as int));
        assert(out1 + rewrite_from(t@, pos as int, mapping@) =~= out@);
    }
    out
}

} // verus!
