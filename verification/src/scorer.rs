use nucleo_matcher::pattern::{Atom, AtomKind, CaseMatching, Normalization};
use nucleo_matcher::{Matcher, Utf32Str};
use vstd::prelude::*;

use crate::text::{chars_of, contains_chars, is_infix, string_of, trim, trim_bounds};

verus! {

/// Added when the summary matches the query fuzzily.
pub const SUMMARY_MATCH_BONUS: u32 = 10_000;

/// Added when the lowercased summary contains the lowercased query.
pub const EXACT_SUMMARY_BONUS: u32 = 1_000_000;

/// Added when only the lowercased body contains the lowercased query.
pub const EXACT_BODY_BONUS: u32 = 500_000;

/// Queries shorter than this many UTF-8 bytes only match exactly.
pub const FUZZY_MIN_QUERY_LEN: usize = 3;

/// Fuzzy-only hits need at least this score.
pub const MIN_FUZZY_SCORE: u32 = 50;

/// One candidate that matched a text query.
#[derive(Clone, Debug)]
pub struct ScoredHit {
    pub id: String,
    pub score: u32,
    pub exact_summary: bool,
    pub exact_body: bool,
    pub original_index: usize,
}

/// The plain values of a hit, without its (always empty) identifier.
#[derive(Clone, Debug)]
pub struct HitModel {
    pub score: u32,
    pub exact_summary: bool,
    pub exact_body: bool,
    pub original_index: usize,
}

impl ScoredHit {
    pub open spec fn model(&self) -> HitModel {
        HitModel {
            score: self.score,
            exact_summary: self.exact_summary,
            exact_body: self.exact_body,
            original_index: self.original_index,
        }
    }
}

pub open spec fn models(v: Seq<ScoredHit>) -> Seq<HitModel> {
    Seq::new(v.len(), |i: int| v[i].model())
}

/// The case-insensitive fuzzy score of `needle` in `haystack`, as nucleo computes it.
pub uninterp spec fn fuzzy_score(needle: Seq<char>, haystack: Seq<char>) -> Option<u16>;

/// The lowercase mapping of a string, as `str::to_lowercase` computes it.
pub uninterp spec fn lowercase(s: Seq<char>) -> Seq<char>;

/// Scores `haystack` against the fuzzy pattern `needle` with nucleo: `Atom::new` (case
/// ignored, no normalization, fuzzy kind, no whitespace escapes) and `Atom::score` on a
/// fresh `Matcher` with the default configuration. The contract claims only that the
/// result is a function of the two texts. `Matcher::fuzzy_match` panics when the haystack's
/// `Utf32Str` is longer than `u32::MAX`; that length counts bytes for text whose graphemes all
/// start with an ASCII character and characters otherwise, so it never exceeds the UTF-8 byte
/// count, which `requires` bounds.
#[verifier::external_body]
fn nucleo_fuzzy_score(needle: &str, haystack: &str) -> (r: Option<u16>)
    requires
        utf8_len(haystack@) <= u32::MAX,
    ensures
        r == fuzzy_score(needle@, haystack@),
{
    let mut matcher = Matcher::new(nucleo_matcher::Config::DEFAULT);
    let atom = Atom::new(needle, CaseMatching::Ignore, Normalization::Never, AtomKind::Fuzzy, false);
    let mut buf = Vec::new();
    atom.score(Utf32Str::new(haystack, &mut buf), &mut matcher)
}

/// Calls `str::to_lowercase`; the contract claims that the result is the named lowercase
/// mapping of the argument.
#[verifier::external_body]
fn to_lowercase(s: &str) -> (r: String)
    ensures
        r@ == lowercase(s@),
{
    s.to_lowercase()
}

/// Number of bytes in the UTF-8 encoding of one character.
pub open spec fn utf8_width(c: char) -> nat {
    if (c as u32) < 0x80 {
        1
    } else if (c as u32) < 0x800 {
        2
    } else if (c as u32) < 0x10000 {
        3
    } else {
        4
    }
}

/// Number of bytes in the UTF-8 encoding of `s` (what `str::len` returns).
pub open spec fn utf8_len(s: Seq<char>) -> nat
    decreases s.len(),
{
    if s.len() == 0 {
        0
    } else {
        utf8_width(s[0]) + utf8_len(s.drop_first())
    }
}

fn utf8_len_at_least(v: &Vec<char>, from: usize, to: usize, bound: usize) -> (r: bool)
    requires
        from <= to <= v@.len(),
    ensures
        r == (utf8_len(v@.subrange(from as int, to as int)) >= bound),
{
    let mut total: usize = 0;
    let mut i: usize = to;
    assert(v@.subrange(to as int, to as int) =~= Seq::<char>::empty());
    while i > from
        invariant
            from <= i <= to,
            to <= v@.len(),
            total <= bound,
            total == (if utf8_len(v@.subrange(i as int, to as int)) >= bound {
                bound as int
            } else {
                utf8_len(v@.subrange(i as int, to as int)) as int
            }),
        decreases i,
    {
        i = i - 1;
        let c = v[i];
        let w: usize = if (c as u32) < 0x80 {
            1
        } else if (c as u32) < 0x800 {
            2
        } else if (c as u32) < 0x10000 {
            3
        } else {
            4
        };
        assert(v@.subrange(i as int, to as int).drop_first() =~= v@.subrange(i + 1, to as int));
        if w >= bound - total {
            total = bound;
        } else {
            total = total + w;
        }
    }
    total >= bound
}

/// The hit that one candidate yields for a non-empty trimmed query `q`, if any.
pub open spec fn hit_for(q: Seq<char>, summary: Seq<char>, body: Seq<char>, index: usize) -> Option<
    HitModel,
> {
    let fs = fuzzy_or_zero(fuzzy_score(q, summary));
    let fb = fuzzy_or_zero(fuzzy_score(q, body));
    combined_hit(
        is_infix(lowercase(q), lowercase(summary)),
        is_infix(lowercase(q), lowercase(body)),
        fs,
        fb,
        utf8_len(q) >= FUZZY_MIN_QUERY_LEN,
        index,
    )
}

pub open spec fn fuzzy_or_zero(r: Option<u16>) -> u16 {
    match r {
        Some(s) => s,
        None => 0u16,
    }
}

pub open spec fn combined_score(exact_summary: bool, exact_body: bool, fs: u16, fb: u16) -> int {
    (if fs >= fb {
        fs as int
    } else {
        fb as int
    }) + (if fs > 0 {
        SUMMARY_MATCH_BONUS as int
    } else {
        0
    }) + (if exact_summary {
        EXACT_SUMMARY_BONUS as int
    } else if exact_body {
        EXACT_BODY_BONUS as int
    } else {
        0
    })
}

/// The hit for one candidate, given whether it matches exactly, its two fuzzy scores,
/// and whether fuzzy-only matches are allowed.
pub open spec fn combined_hit(
    exact_summary: bool,
    exact_body: bool,
    fs: u16,
    fb: u16,
    allow_fuzzy: bool,
    index: usize,
) -> Option<HitModel> {
    let score = combined_score(exact_summary, exact_body, fs, fb);
    if exact_summary || exact_body || (allow_fuzzy && (fs > 0 || fb > 0) && score
        >= MIN_FUZZY_SCORE) {
        Some(
            HitModel {
                score: score as u32,
                exact_summary: exact_summary,
                exact_body: exact_body,
                original_index: index,
            },
        )
    } else {
        None
    }
}

/// The hits of `cands` for the trimmed query `q`, in candidate order.
pub open spec fn candidate_hits(q: Seq<char>, cands: Seq<(usize, &str, &str)>) -> Seq<HitModel>
    decreases cands.len(),
{
    if cands.len() == 0 {
        Seq::empty()
    } else {
        let rest = candidate_hits(q, cands.drop_last());
        let c = cands.last();
        match hit_for(q, c.1@, c.2@, c.0) {
            Some(h) => rest.push(h),
            None => rest,
        }
    }
}

pub open spec fn exactness(h: HitModel) -> int {
    if h.exact_summary {
        2
    } else if h.exact_body {
        1
    } else {
        0
    }
}

/// `a` comes strictly before `b`: higher score first, then exact summary matches, then exact
/// body matches, then the lower original index.
pub open spec fn precedes(a: HitModel, b: HitModel) -> bool {
    ||| a.score > b.score
    ||| (a.score == b.score && exactness(a) > exactness(b))
    ||| (a.score == b.score && exactness(a) == exactness(b) && a.original_index
        < b.original_index)
}

pub open spec fn hits_sorted(s: Seq<HitModel>) -> bool {
    forall|i: int, j: int| 0 <= i < j < s.len() ==> !precedes(#[trigger] s[j], #[trigger] s[i])
}

/// The hit for one candidate from its lowercased texts and fuzzy results.
pub fn score_hit(
    query_lower: &Vec<char>,
    summary_lower: &Vec<char>,
    body_lower: &Vec<char>,
    summary_fuzzy: Option<u16>,
    body_fuzzy: Option<u16>,
    allow_fuzzy: bool,
    original_index: usize,
) -> (r: Option<ScoredHit>)
    ensures
        r matches Some(h) ==> h.id@ == Seq::<char>::empty(),
        match r {
            Some(h) => combined_hit(
                is_infix(query_lower@, summary_lower@),
                is_infix(query_lower@, body_lower@),
                fuzzy_or_zero(summary_fuzzy),
                fuzzy_or_zero(body_fuzzy),
                allow_fuzzy,
                original_index,
            ) == Some(h.model()),
            None => combined_hit(
                is_infix(query_lower@, summary_lower@),
                is_infix(query_lower@, body_lower@),
                fuzzy_or_zero(summary_fuzzy),
                fuzzy_or_zero(body_fuzzy),
                allow_fuzzy,
                original_index,
            ) is None,
        },
{
    let exact_summary = contains_chars(summary_lower, query_lower);
    let exact_body = contains_chars(body_lower, query_lower);
    let fs: u16 = match summary_fuzzy {
        Some(s) => s,
        None => 0,
    };
    let fb: u16 = match body_fuzzy {
        Some(s) => s,
        None => 0,
    };
    let mut score: u32 = if fs >= fb {
        fs as u32
    } else {
        fb as u32
    };
    if fs > 0 {
        score = score + SUMMARY_MATCH_BONUS;
    }
    if exact_summary {
        score = score + EXACT_SUMMARY_BONUS;
    } else if exact_body {
        score = score + EXACT_BODY_BONUS;
    }
    let has_exact = exact_summary || exact_body;
    let has_fuzzy = fs > 0 || fb > 0;
    if !(has_exact || (allow_fuzzy && has_fuzzy && score >= MIN_FUZZY_SCORE)) {
        return None;
    }
    Some(
        ScoredHit {
            id: String::new(),
            score,
            exact_summary,
            exact_body,
            original_index,
        },
    )
}

fn precedes_exec(a: &ScoredHit, b: &ScoredHit) -> (r: bool)
    ensures
        r == precedes(a.model(), b.model()),
{
    let ea: u8 = if a.exact_summary {
        2
    } else if a.exact_body {
        1
    } else {
        0
    };
    let eb: u8 = if b.exact_summary {
        2
    } else if b.exact_body {
        1
    } else {
        0
    };
    a.score > b.score || (a.score == b.score && ea > eb) || (a.score == b.score && ea == eb
        && a.original_index < b.original_index)
}

/// Orders hits by score (highest first), then exactness, then original index.
pub fn sort_hits(hits: Vec<ScoredHit>) -> (r: Vec<ScoredHit>)
    ensures
        models(r@).to_multiset() == models(hits@).to_multiset(),
        hits_sorted(models(r@)),
        forall|i: int| 0 <= i < r@.len() ==> hits@.contains(#[trigger] r@[i]),
{
    let ghost orig = hits@;
    let mut input = hits;
    let mut out: Vec<ScoredHit> = Vec::new();
    proof {
        broadcast use vstd::multiset::group_multiset_axioms;

        assert(models(out@) =~= Seq::<HitModel>::empty());
        vstd::seq_lib::to_multiset_len(models(out@));
        vstd::multiset::lemma_multiset_empty_len(models(out@).to_multiset());
        assert(models(out@).to_multiset().add(models(input@).to_multiset()) =~= models(
            orig,
        ).to_multiset());
        assert forall|i: int| 0 <= i < input@.len() implies orig.contains(#[trigger] input@[i]) by {
            assert(input@[i] == orig[i]);
        }
    }
    while input.len() > 0
        invariant
            models(out@).to_multiset().add(models(input@).to_multiset()) == models(
                orig,
            ).to_multiset(),
            hits_sorted(models(out@)),
            forall|i: int| 0 <= i < out@.len() ==> orig.contains(#[trigger] out@[i]),
            forall|i: int| 0 <= i < input@.len() ==> orig.contains(#[trigger] input@[i]),
        decreases input.len(),
    {
        let ghost before_in = input@;
        let ghost before_out = out@;
        let h = input.remove(0);
        proof {
            assert(models(input@) =~= models(before_in).remove(0));
            vstd::seq_lib::to_multiset_remove(models(before_in), 0);
            assert(before_in[0] == h);
        }
        let mut p: usize = 0;
        while p < out.len() && !precedes_exec(&h, &out[p])
            invariant
                p <= out@.len(),
                out@ == before_out,
                forall|j: int| 0 <= j < p ==> !precedes(h.model(), #[trigger] out@[j].model()),
            decreases out.len() - p,
        {
            p = p + 1;
        }
        let ghost hm = h.model();
        out.insert(p, h);
        proof {
            assert(models(out@) =~= models(before_out).insert(p as int, hm));
            vstd::seq_lib::to_multiset_insert(models(before_out), p as int, hm);
            broadcast use vstd::multiset::group_multiset_axioms;

            assert(models(before_in).to_multiset().contains(hm)) by {
                assert(models(before_in)[0] == hm);
                vstd::seq_lib::to_multiset_contains(models(before_in), hm);
            }
            assert(models(out@).to_multiset().add(models(input@).to_multiset()) =~= models(
                before_out,
            ).to_multiset().add(models(before_in).to_multiset()));
            let ms = models(out@);
            assert forall|i: int, j: int| 0 <= i < j < ms.len() implies !precedes(
                #[trigger] ms[j],
                #[trigger] ms[i],
            ) by {
                let bm = models(before_out);
                if j < p {
                    assert(ms[i] == bm[i] && ms[j] == bm[j]);
                } else if j == p {
                    assert(ms[i] == bm[i]);
                } else if i < p {
                    assert(ms[i] == bm[i] && ms[j] == bm[j - 1]);
                } else if i == p {
                    assert(ms[j] == bm[j - 1]);
                    assert(precedes(hm, bm[p as int]));
                    if j - 1 > p {
                        assert(!precedes(bm[j - 1], bm[p as int]));
                    }
                } else {
                    assert(ms[i] == bm[i - 1] && ms[j] == bm[j - 1]);
                }
            }
            assert forall|i: int| 0 <= i < out@.len() implies orig.contains(#[trigger] out@[i]) by {
                if i < p {
                    assert(out@[i] == before_out[i]);
                } else if i > p {
                    assert(out@[i] == before_out[i - 1]);
                } else {
                    assert(out@[i] == before_in[0]);
                }
            }
            assert forall|i: int| 0 <= i < input@.len() implies orig.contains(#[trigger] input@[i]) by {
                assert(input@[i] == before_in[i + 1]);
            }
        }
    }
    proof {
        assert(models(input@) =~= Seq::<HitModel>::empty());
        vstd::seq_lib::to_multiset_len(models(input@));
        vstd::multiset::lemma_multiset_empty_len(models(input@).to_multiset());
    }
    out
}

/// Scores one candidate against the trimmed query `query`.
fn score_one(
    query: &str,
    query_lower: &Vec<char>,
    summary: &str,
    body: &str,
    original_index: usize,
    allow_fuzzy: bool,
) -> (r: Option<ScoredHit>)
    requires
        utf8_len(summary@) <= u32::MAX,
        utf8_len(body@) <= u32::MAX,
        query_lower@ == lowercase(query@),
        allow_fuzzy == (utf8_len(query@) >= FUZZY_MIN_QUERY_LEN),
    ensures
        r matches Some(h) ==> h.id@ == Seq::<char>::empty(),
        match r {
            Some(h) => hit_for(query@, summary@, body@, original_index) == Some(h.model()),
            None => hit_for(query@, summary@, body@, original_index) is None,
        },
{
    let summary_lower = to_lowercase(summary);
    let body_lower = to_lowercase(body);
    let sv = chars_of(summary_lower.as_str());
    let bv = chars_of(body_lower.as_str());
    let summary_fuzzy = nucleo_fuzzy_score(query, summary);
    let body_fuzzy = nucleo_fuzzy_score(query, body);
    score_hit(query_lower, &sv, &bv, summary_fuzzy, body_fuzzy, allow_fuzzy, original_index)
}

/// Ranks `(original_index, summary, body)` candidates against a text query.
///
/// The query is trimmed first; an empty query matches nothing. A candidate is a hit when its
/// lowercased summary or body contains the lowercased query, or, for queries of at least
/// three UTF-8 bytes, when it matches fuzzily with a combined score of at least 50. Hits come
/// out highest score first, then exact summary matches before exact body matches before fuzzy
/// ones, then by original index.
pub fn score_candidates(query: &str, candidates: &[(usize, &str, &str)]) -> (r: Vec<ScoredHit>)
    requires
        forall|i: int|
            0 <= i < candidates@.len() ==> utf8_len((#[trigger] candidates@[i]).1@) <= u32::MAX
                && utf8_len(candidates@[i].2@) <= u32::MAX,
    ensures
        trim(query@).len() == 0 ==> r@.len() == 0,
        trim(query@).len() > 0 ==> models(r@).to_multiset() == candidate_hits(
            trim(query@),
            candidates@,
        ).to_multiset(),
        hits_sorted(models(r@)),
        forall|i: int| 0 <= i < r@.len() ==> (#[trigger] r@[i]).id@ == Seq::<char>::empty(),
{
    let qv = chars_of(query);
    let (b, e) = trim_bounds(&qv);
    if b == e {
        let empty: Vec<ScoredHit> = Vec::new();
        assert(models(empty@) =~= Seq::<HitModel>::empty());
        return empty;
    }
    let q = string_of(&qv, b, e);
    let q_lower = to_lowercase(q.as_str());
    let q_lower_chars = chars_of(q_lower.as_str());
    let allow_fuzzy = utf8_len_at_least(&qv, b, e, FUZZY_MIN_QUERY_LEN);
    let ghost tq = trim(query@);
    let mut hits: Vec<ScoredHit> = Vec::new();
    let n = candidates.len();
    let mut i: usize = 0;
    assert(models(hits@) =~= candidate_hits(tq, candidates@.subrange(0, 0)));
    while i < n
        invariant
            n == candidates@.len(),
            i <= n,
            q@ == tq,
            q_lower_chars@ == lowercase(q@),
            allow_fuzzy == (utf8_len(q@) >= FUZZY_MIN_QUERY_LEN),
            forall|k: int|
                0 <= k < candidates@.len() ==> utf8_len((#[trigger] candidates@[k]).1@) <= u32::MAX
                    && utf8_len(candidates@[k].2@) <= u32::MAX,
            models(hits@) =~= candidate_hits(tq, candidates@.subrange(0, i as int)),
            forall|k: int| 0 <= k < hits@.len() ==> (#[trigger] hits@[k]).id@ == Seq::<
                char,
            >::empty(),
        decreases n - i,
    {
        let c = candidates[i];
        let ghost prev = hits@;
        let scored = score_one(q.as_str(), &q_lower_chars, c.1, c.2, c.0, allow_fuzzy);
        assert(candidates@.subrange(0, i + 1).drop_last() =~= candidates@.subrange(0, i as int));
        assert(candidates@.subrange(0, i + 1).last() == c);
        match scored {
            Some(h) => {
                hits.push(h);
                assert(models(hits@) =~= models(prev).push(h.model()));
            },
            None => {},
        }
        i = i + 1;
    }
    assert(candidates@.subrange(0, n as int) =~= candidates@);
    let sorted = sort_hits(hits);
    assert forall|k: int| 0 <= k < sorted@.len() implies (#[trigger] sorted@[k]).id@ == Seq::<
        char,
    >::empty() by {
        assert(hits@.contains(sorted@[k]));
        let j = choose|j: int| 0 <= j < hits@.len() && hits@[j] == sorted@[k];
        assert(hits@[j].id@ == Seq::<char>::empty());
    }
    sorted
}

/// A candidate whose lowercased summary or body contains the lowercased query is always a hit.
pub proof fn law_exact_matches_are_hits(q: Seq<char>, summary: Seq<char>, body: Seq<char>, index: usize)
    requires
        is_infix(lowercase(q), lowercase(summary)) || is_infix(lowercase(q), lowercase(body)),
    ensures
        hit_for(q, summary, body, index) matches Some(h) && h.original_index == index && (
        h.exact_summary || h.exact_body),
{
}

/// A query of fewer than three UTF-8 bytes only finds exact matches.
pub proof fn law_short_queries_match_exactly(q: Seq<char>, cands: Seq<(usize, &str, &str)>)
    requires
        utf8_len(q) < FUZZY_MIN_QUERY_LEN,
    ensures
        forall|k: int|
            0 <= k < candidate_hits(q, cands).len() ==> (#[trigger] candidate_hits(q, cands)[k]).exact_summary
                || candidate_hits(q, cands)[k].exact_body,
    decreases cands.len(),
{
    if cands.len() > 0 {
        law_short_queries_match_exactly(q, cands.drop_last());
        let rest = candidate_hits(q, cands.drop_last());
        let all = candidate_hits(q, cands);
        assert forall|k: int| 0 <= k < all.len() implies (#[trigger] all[k]).exact_summary
            || all[k].exact_body by {
            if k < rest.len() {
                assert(all[k] == rest[k]);
            }
        }
    }
}

/// Every hit whose summary contains the query ranks above every hit whose summary does not:
/// the exact summary bonus outweighs anything a hit can score otherwise.
pub proof fn law_exact_summary_outranks(a: HitModel, b: HitModel, s1: Seq<char>, b1: Seq<char>, i1: usize, s2: Seq<char>, b2: Seq<char>, i2: usize, q: Seq<char>)
    requires
        hit_for(q, s1, b1, i1) == Some(a),
        hit_for(q, s2, b2, i2) == Some(b),
        a.exact_summary,
        !b.exact_summary,
    ensures
        precedes(a, b),
{
}

/// Two orderings of the same hits that both follow the ranking order are the same sequence,
/// when no two hits share an original index: the ranking is deterministic.
pub proof fn law_ranking_is_unique(x: Seq<HitModel>, y: Seq<HitModel>)
    requires
        hits_sorted(x),
        hits_sorted(y),
        x.to_multiset() == y.to_multiset(),
        forall|i: int, j: int|
            0 <= i < j < x.len() ==> (#[trigger] x[i]).original_index != (#[trigger] x[j]).original_index,
    ensures
        x == y,
    decreases x.len(),
{
    broadcast use vstd::multiset::group_multiset_axioms;
    broadcast use vstd::seq_lib::group_to_multiset_ensures;

    vstd::seq_lib::to_multiset_len(x);
    vstd::seq_lib::to_multiset_len(y);
    if x.len() == 0 {
        assert(y.len() == 0);
        assert(x =~= y);
    } else {
        assert(x.to_multiset().contains(x[0]));
        assert(y.to_multiset().contains(x[0]));
        assert(x.to_multiset().contains(y[0]));
        let i = choose|i: int| 0 <= i < x.len() && x[i] == y[0];
        let j = choose|j: int| 0 <= j < y.len() && y[j] == x[0];
        if i > 0 {
            assert(!precedes(x[i], x[0]));
        }
        if j > 0 {
            assert(!precedes(y[j], y[0]));
        }
        assert(!precedes(y[0], x[0]));
        assert(!precedes(x[0], y[0]));
        assert(x[0].original_index == x[i].original_index);
        if i > 0 {
            assert(x[0].original_index != x[i].original_index);
        }
        assert(x[0] == y[0]);
        assert(x.drop_first().to_multiset() =~= x.to_multiset().remove(x[0])) by {
            assert(x.remove(0) =~= x.drop_first());
        }
        assert(y.drop_first().to_multiset() =~= y.to_multiset().remove(y[0])) by {
            assert(y.remove(0) =~= y.drop_first());
        }
        let xs = x.drop_first();
        let ys = y.drop_first();
        assert forall|a: int, b: int| 0 <= a < b < xs.len() implies !precedes(
            #[trigger] xs[b],
            #[trigger] xs[a],
        ) by {
            assert(xs[a] == x[a + 1] && xs[b] == x[b + 1]);
        }
        assert forall|a: int, b: int| 0 <= a < b < ys.len() implies !precedes(
            #[trigger] ys[b],
            #[trigger] ys[a],
        ) by {
            assert(ys[a] == y[a + 1] && ys[b] == y[b + 1]);
        }
        assert forall|a: int, b: int| 0 <= a < b < xs.len() implies (#[trigger] xs[a]).original_index
            != (#[trigger] xs[b]).original_index by {
            assert(xs[a] == x[a + 1] && xs[b] == x[b + 1]);
        }
        law_ranking_is_unique(xs, ys);
        assert(x =~= y) by {
            assert forall|k: int| 0 <= k < x.len() implies x[k] == y[k] by {
                if k > 0 {
                    assert(x[k] == xs[k - 1] && y[k] == ys[k - 1]);
                }
            }
        }
    }
}

/// Byte counts add up: the empty text has none, and a joined text has the bytes of its parts.
pub proof fn law_utf8_len_adds_up(a: Seq<char>, b: Seq<char>)
    ensures
        utf8_len(Seq::<char>::empty()) == 0,
        utf8_len(a + b) == utf8_len(a) + utf8_len(b),
    decreases a.len(),
{
    if a.len() == 0 {
        assert(a + b =~= b);
    } else {
        law_utf8_len_adds_up(a.drop_first(), b);
        assert((a + b).drop_first() =~= a.drop_first() + b);
        assert((a + b)[0] == a[0]);
    }
}

/// A text of ASCII characters has one byte per character.
pub proof fn law_ascii_text_has_one_byte_per_character(s: Seq<char>)
    requires
        forall|i: int| 0 <= i < s.len() ==> (#[trigger] s[i] as u32) < 0x80,
    ensures
        utf8_len(s) == s.len(),
    decreases s.len(),
{
    if s.len() > 0 {
        assert((s[0] as u32) < 0x80);
        assert forall|i: int| 0 <= i < s.drop_first().len() implies (#[trigger] s.drop_first()[i] as u32) < 0x80 by {
            assert(s.drop_first()[i] == s[i + 1]);
        }
        law_ascii_text_has_one_byte_per_character(s.drop_first());
    }
}

/// A text of non-ASCII characters takes two to four bytes per character.
pub proof fn law_other_characters_take_two_to_four_bytes(s: Seq<char>)
    requires
        forall|i: int| 0 <= i < s.len() ==> (#[trigger] s[i] as u32) >= 0x80,
    ensures
        2 * s.len() <= utf8_len(s) <= 4 * s.len(),
    decreases s.len(),
{
    if s.len() > 0 {
        assert((s[0] as u32) >= 0x80);
        assert forall|i: int| 0 <= i < s.drop_first().len() implies (#[trigger] s.drop_first()[i] as u32) >= 0x80 by {
            assert(s.drop_first()[i] == s[i + 1]);
        }
        law_other_characters_take_two_to_four_bytes(s.drop_first());
    }
}

/// A query of at most two ASCII characters (fewer than three bytes) only finds candidates
/// whose summary or body contains it.
pub proof fn law_two_ascii_characters_match_exactly(q: Seq<char>, cands: Seq<(usize, &str, &str)>)
    requires
        q.len() <= 2,
        forall|i: int| 0 <= i < q.len() ==> (#[trigger] q[i] as u32) < 0x80,
    ensures
        forall|k: int|
            0 <= k < candidate_hits(q, cands).len() ==> (#[trigger] candidate_hits(q, cands)[k]).exact_summary
                || candidate_hits(q, cands)[k].exact_body,
{
    law_ascii_text_has_one_byte_per_character(q);
    law_short_queries_match_exactly(q, cands);
}

} // verus!
