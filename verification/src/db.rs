use vstd::prelude::*;

use crate::models::{type_of_stored_name, DocumentSummary, DocumentType};
use crate::sql_log::{lemma_lex_irreflexive, lemma_lex_total, lemma_lex_transitive, lex_less, lex_lt, views};
use crate::text::{chars_of, decimal, push_decimal};

verus! {

/// What the graph ranking reads of each document.
#[derive(Clone, Debug)]
pub struct GraphDocumentRow {
    pub id: String,
    pub created_at: String,
    pub invalidated: bool,
}

/// The type stored in a row, read as `COMMIT` when the name is not one of the three.
pub fn document_type_or_commit(value: &str) -> (t: DocumentType)
    ensures
        t == match type_of_stored_name(value@) {
            Some(t) => t,
            None => DocumentType::Commit,
        },
{
    match DocumentType::from_db(value) {
        Some(t) => t,
        None => DocumentType::Commit,
    }
}

/// The summaries that a listing keeps: all of them, or the valid ones only.
pub open spec fn kept_summaries(s: Seq<DocumentSummary>, include_invalidated: bool) -> Seq<
    DocumentSummary,
>
    decreases s.len(),
{
    if s.len() == 0 {
        Seq::empty()
    } else {
        let r = kept_summaries(s.drop_last(), include_invalidated);
        if include_invalidated || !s.last().invalidated {
            r.push(s.last())
        } else {
            r
        }
    }
}

/// Newest first: no summary is followed by one created later.
pub open spec fn newest_first(s: Seq<DocumentSummary>) -> bool {
    forall|i: int, j: int|
        0 <= i < j < s.len() ==> !lex_lt(#[trigger] s[i].created_at@, #[trigger] s[j].created_at@)
}

/// The summaries created at exactly `c`.
pub open spec fn created_at_is(c: Seq<char>) -> spec_fn(DocumentSummary) -> bool {
    |s: DocumentSummary| s.created_at@ == c
}

proof fn lemma_filter_other_times(t: Seq<DocumentSummary>, c: Seq<char>)
    requires
        forall|i: int| 0 <= i < t.len() ==> (#[trigger] t[i]).created_at@ != c,
    ensures
        t.filter(created_at_is(c)) == Seq::<DocumentSummary>::empty(),
    decreases t.len(),
{
    reveal(Seq::filter);
    if t.len() == 0 {
        assert(t =~= Seq::<DocumentSummary>::empty());
    } else {
        assert(t.last() == t[t.len() - 1]);
        lemma_filter_other_times(t.drop_last(), c);
    }
}

proof fn lemma_filter_single(s: DocumentSummary, c: Seq<char>)
    ensures
        seq![s].filter(created_at_is(c)) == if s.created_at@ == c {
            seq![s]
        } else {
            Seq::<DocumentSummary>::empty()
        },
{
    reveal(Seq::filter);
    assert(seq![s].drop_last() =~= Seq::<DocumentSummary>::empty());
    assert(Seq::<DocumentSummary>::empty().filter(created_at_is(c)) =~= Seq::<DocumentSummary>::empty());
    assert(seq![s].last() == s);
    assert(Seq::<DocumentSummary>::empty().push(s) =~= seq![s]);
}

fn insert_newest_first(out: &mut Vec<DocumentSummary>, s: DocumentSummary)
    requires
        newest_first(old(out)@),
    ensures
        final(out)@.to_multiset() == old(out)@.to_multiset().insert(s),
        newest_first(final(out)@),
        forall|c: Seq<char>| #[trigger] final(out)@.filter(created_at_is(c)) == if s.created_at@ == c {
            old(out)@.filter(created_at_is(c)).push(s)
        } else {
            old(out)@.filter(created_at_is(c))
        },
{
    let key = chars_of(s.created_at.as_str());
    let ghost before = out@;
    let mut p: usize = 0;
    let mut keep_going = true;
    while keep_going && p < out.len()
        invariant
            p <= out@.len(),
            out@ == before,
            key@ == s.created_at@,
            forall|j: int| 0 <= j < p ==> !lex_lt(#[trigger] out@[j].created_at@, s.created_at@),
            !keep_going ==> p < out@.len() && lex_lt(out@[p as int].created_at@, s.created_at@),
        decreases out.len() - p, (if keep_going { 1int } else { 0int }),
    {
        let cur = chars_of(out[p].created_at.as_str());
        if lex_less(&cur, &key) {
            keep_going = false;
        } else {
            p = p + 1;
        }
    }
    let ghost sv = s;
    out.insert(p, s);
    proof {
        vstd::seq_lib::to_multiset_insert(before, p as int, sv);
        let ms = out@;
        assert(ms == before.insert(p as int, sv));
        assert forall|i: int, j: int| 0 <= i < j < ms.len() implies !lex_lt(
            #[trigger] ms[i].created_at@,
            #[trigger] ms[j].created_at@,
        ) by {
            if j < p {
                assert(ms[i] == before[i] && ms[j] == before[j]);
            } else if j == p {
                assert(ms[i] == before[i]);
            } else if i < p {
                assert(ms[i] == before[i] && ms[j] == before[j - 1]);
            } else if i == p {
                assert(ms[j] == before[j - 1]);
                let a = before[p as int].created_at@;
                assert(lex_lt(a, sv.created_at@));
                if lex_lt(sv.created_at@, before[j - 1].created_at@) {
                    lemma_lex_transitive(a, sv.created_at@, before[j - 1].created_at@);
                    if j - 1 > p {
                        assert(!lex_lt(a, before[j - 1].created_at@));
                    } else {
                        lemma_lex_irreflexive(a);
                    }
                }
            } else {
                assert(ms[i] == before[i - 1] && ms[j] == before[j - 1]);
            }
        }
        let lo = before.subrange(0, p as int);
        let hi = before.subrange(p as int, before.len() as int);
        assert(before =~= lo + hi);
        assert(ms =~= lo + seq![sv] + hi);
        assert forall|i: int| 0 <= i < hi.len() implies lex_lt(#[trigger] hi[i].created_at@, sv.created_at@) by {
            let b = before[p as int].created_at@;
            let h = hi[i].created_at@;
            assert(hi[i] == before[p + i]);
            if i > 0 {
                assert(!lex_lt(b, h));
                lemma_lex_total(h, b);
                if lex_lt(h, b) {
                    lemma_lex_transitive(h, b, sv.created_at@);
                }
            }
        }
        assert forall|c: Seq<char>| #[trigger] ms.filter(created_at_is(c)) == if sv.created_at@ == c {
            before.filter(created_at_is(c)).push(sv)
        } else {
            before.filter(created_at_is(c))
        } by {
            let pred = created_at_is(c);
            Seq::filter_distributes_over_add(lo + seq![sv], hi, pred);
            Seq::filter_distributes_over_add(lo, seq![sv], pred);
            Seq::filter_distributes_over_add(lo, hi, pred);
            lemma_filter_single(sv, c);
            if sv.created_at@ == c {
                assert forall|i: int| 0 <= i < hi.len() implies (#[trigger] hi[i]).created_at@ != c by {
                    if hi[i].created_at@ == c {
                        lemma_lex_irreflexive(c);
                    }
                }
                lemma_filter_other_times(hi, c);
                assert(hi.filter(pred) =~= Seq::<DocumentSummary>::empty());
                assert(ms.filter(pred) =~= lo.filter(pred).push(sv));
                assert(before.filter(pred) =~= lo.filter(pred));
            } else {
                assert(ms.filter(pred) =~= lo.filter(pred) + hi.filter(pred));
            }
        }
    }
}

/// The summaries of a listing: the invalidated ones dropped unless they are asked for, the
/// rest newest first by creation time; those created at the same time keep their order.
pub fn order_summaries(summaries: Vec<DocumentSummary>, include_invalidated: bool) -> (r: Vec<
    DocumentSummary,
>)
    ensures
        r@.to_multiset() == kept_summaries(summaries@, include_invalidated).to_multiset(),
        newest_first(r@),
        forall|c: Seq<char>| #[trigger] r@.filter(created_at_is(c)) == kept_summaries(
            summaries@,
            include_invalidated,
        ).filter(created_at_is(c)),
{
    let ghost orig = summaries@;
    let mut input = summaries;
    let total = input.len();
    let mut out: Vec<DocumentSummary> = Vec::new();
    let mut taken: usize = 0;
    proof {
        broadcast use vstd::multiset::group_multiset_axioms;

        vstd::seq_lib::to_multiset_len(out@);
        vstd::multiset::lemma_multiset_empty_len(out@.to_multiset());
        assert(orig.subrange(0, 0) =~= Seq::<DocumentSummary>::empty());
        vstd::seq_lib::to_multiset_len(kept_summaries(orig.subrange(0, 0), include_invalidated));
        vstd::multiset::lemma_multiset_empty_len(
            kept_summaries(orig.subrange(0, 0), include_invalidated).to_multiset(),
        );
        assert(input@ =~= orig.subrange(0, orig.len() as int));
        assert(out@ =~= kept_summaries(orig.subrange(0, 0), include_invalidated));
    }
    while input.len() > 0
        invariant
            forall|c: Seq<char>| #[trigger] out@.filter(created_at_is(c)) == kept_summaries(
                orig.subrange(0, taken as int),
                include_invalidated,
            ).filter(created_at_is(c)),
            taken <= orig.len(),
            taken + input@.len() == orig.len(),
            orig.len() == total,
            input@ == orig.subrange(taken as int, orig.len() as int),
            out@.to_multiset() == kept_summaries(
                orig.subrange(0, taken as int),
                include_invalidated,
            ).to_multiset(),
            newest_first(out@),
        decreases input.len(),
    {
        let s = input.remove(0);
        let ghost pre = orig.subrange(0, taken as int);
        let ghost post = orig.subrange(0, taken + 1);
        proof {
            assert(post.drop_last() =~= pre);
            assert(post.last() == s);
        }
        if include_invalidated || !s.invalidated {
            let ghost sv = s;
            insert_newest_first(&mut out, s);
            proof {
                vstd::seq_lib::to_multiset_build(kept_summaries(pre, include_invalidated), sv);
                assert forall|c: Seq<char>| #[trigger] out@.filter(created_at_is(c)) == kept_summaries(
                    post,
                    include_invalidated,
                ).filter(created_at_is(c)) by {
                    kept_summaries(pre, include_invalidated).lemma_filter_push(sv, created_at_is(c));
                }
            }
        }
        taken = taken + 1;
        assert(input@ =~= orig.subrange(taken as int, orig.len() as int));
    }
    assert(orig.subrange(0, taken as int) =~= orig);
    out
}

/// Some string of `v` has the characters `s`.
pub open spec fn has_text(v: Seq<String>, s: Seq<char>) -> bool {
    exists|k: int| 0 <= k < v.len() && (#[trigger] v[k])@ == s
}

fn contains_string(v: &Vec<String>, s: &String) -> (r: bool)
    ensures
        r == has_text(v@, s@),
{
    let mut i: usize = 0;
    while i < v.len()
        invariant
            i <= v@.len(),
            forall|k: int| 0 <= k < i ==> (#[trigger] v@[k])@ != s@,
        decreases v.len() - i,
    {
        if v[i] == *s {
            return true;
        }
        i = i + 1;
    }
    false
}

/// The IDs of `found` that are not among `seeds`, each once, in order of first appearance.
pub open spec fn first_new(seeds: Seq<String>, found: Seq<String>) -> Seq<Seq<char>>
    decreases found.len(),
{
    if found.len() == 0 {
        Seq::empty()
    } else {
        let r = first_new(seeds, found.drop_last());
        let f = found.last()@;
        if !has_text(seeds, f) && !r.contains(f) {
            r.push(f)
        } else {
            r
        }
    }
}

/// The documents linked to any of `seeds`, given the IDs that the link queries found: each
/// found ID once, without the seeds themselves.
pub fn collect_related_ids(seeds: &Vec<String>, found: &Vec<String>) -> (r: Vec<String>)
    ensures
        views(r@) == first_new(seeds@, found@),
        forall|k: int|
            0 <= k < r@.len() ==> has_text(found@, (#[trigger] r@[k])@) && !has_text(
                seeds@,
                r@[k]@,
            ),
        forall|j: int|
            0 <= j < found@.len() && !has_text(seeds@, (#[trigger] found@[j])@) ==> has_text(
                r@,
                found@[j]@,
            ),
        forall|a: int, b: int| 0 <= a < b < r@.len() ==> (#[trigger] r@[a])@ != (#[trigger] r@[b])@,
{
    let mut out: Vec<String> = Vec::new();
    let mut i: usize = 0;
    while i < found.len()
        invariant
            i <= found@.len(),
            views(out@) == first_new(seeds@, found@.subrange(0, i as int)),
            forall|k: int|
                0 <= k < out@.len() ==> has_text(found@, (#[trigger] out@[k])@) && !has_text(
                    seeds@,
                    out@[k]@,
                ),
            forall|j: int|
                0 <= j < i && !has_text(seeds@, (#[trigger] found@[j])@) ==> has_text(
                    out@,
                    found@[j]@,
                ),
            forall|a: int, b: int|
                0 <= a < b < out@.len() ==> (#[trigger] out@[a])@ != (#[trigger] out@[b])@,
        decreases found.len() - i,
    {
        let f = &found[i];
        let ghost before = out@;
        proof {
            let sub = found@.subrange(0, i + 1);
            assert(sub.drop_last() =~= found@.subrange(0, i as int));
            assert(sub.last() == found@[i as int]);
            if views(before).contains(f@) {
                let k = choose|k: int| 0 <= k < views(before).len() && views(before)[k] == f@;
                assert(before[k]@ == f@);
            }
            if has_text(before, f@) {
                let k = choose|k: int| 0 <= k < before.len() && before[k]@ == f@;
                assert(views(before)[k] == f@);
            }
        }
        if !contains_string(seeds, f) && !contains_string(&out, f) {
            out.push(f.clone());
            proof {
                assert(views(out@) =~= views(before).push(f@));
                assert(out@[before.len() as int]@ == found@[i as int]@);
                assert forall|j: int|
                    0 <= j < i + 1 && !has_text(seeds@, (#[trigger] found@[j])@) implies has_text(
                    out@,
                    found@[j]@,
                ) by {
                    if j < i {
                        let k = choose|k: int| 0 <= k < before.len() && before[k]@ == found@[j]@;
                        assert(out@[k] == before[k]);
                    } else {
                        assert(out@[before.len() as int]@ == found@[j]@);
                    }
                }
                assert forall|k: int| 0 <= k < out@.len() implies has_text(
                    found@,
                    (#[trigger] out@[k])@,
                ) && !has_text(seeds@, out@[k]@) by {
                    if k < before.len() {
                        assert(out@[k] == before[k]);
                    } else {
                        assert(found@[i as int]@ == out@[k]@);
                    }
                }
                assert forall|a: int, b: int| 0 <= a < b < out@.len() implies (#[trigger] out@[
                    a
                ])@ != (#[trigger] out@[b])@ by {
                    if b < before.len() {
                        assert(out@[a] == before[a] && out@[b] == before[b]);
                    } else {
                        assert(out@[a] == before[a]);
                    }
                }
            }
        } else {
            proof {
                assert forall|j: int|
                    0 <= j < i + 1 && !has_text(seeds@, (#[trigger] found@[j])@) implies has_text(
                    out@,
                    found@[j]@,
                ) by {
                    if j == i {
                        assert(f@ == found@[j]@);
                    }
                }
            }
        }
        i = i + 1;
    }
    assert(found@.subrange(0, found@.len() as int) =~= found@);
    out
}

/// `?1, ?2, …, ?n`: the positional parameters of an `IN (…)` list.
pub open spec fn placeholders(n: nat) -> Seq<char>
    decreases n,
{
    if n == 0 {
        Seq::empty()
    } else if n == 1 {
        "?1"@
    } else {
        placeholders((n - 1) as nat) + ", ?"@ + decimal(n)
    }
}

pub fn placeholder_list(n: usize) -> (r: String)
    ensures
        r@ == placeholders(n as nat),
{
    let mut out = String::new();
    let mut i: usize = 0;
    while i < n
        invariant
            i <= n,
            out@ == placeholders(i as nat),
        decreases n - i,
    {
        i = i + 1;
        if i == 1 {
            out.append("?1");
            proof {
                reveal_strlit("?1");
                reveal_strlit("?");
            }
        } else {
            out.append(", ?");
            push_decimal(&mut out, i);
        }
    }
    proof {
        reveal_strlit("");
    }
    out
}

pub open spec fn summaries_bulk_query(n: nat, include_invalidated: bool) -> Seq<char> {
    "SELECT id, created_at, invalidated, invalidation_reason, quick_summary, document_type FROM documents WHERE id IN ("@
        + placeholders(n) + if include_invalidated {
        ") ORDER BY id"@
    } else {
        ") AND invalidated = 0 ORDER BY id"@
    }
}

/// The query that reads the summaries of `n` documents by ID at once.
pub fn summaries_bulk_sql(n: usize, include_invalidated: bool) -> (r: String)
    ensures
        r@ == summaries_bulk_query(n as nat, include_invalidated),
{
    let mut sql = String::from_str(
        "SELECT id, created_at, invalidated, invalidation_reason, quick_summary, document_type FROM documents WHERE id IN (",
    );
    sql.append(placeholder_list(n).as_str());
    if include_invalidated {
        sql.append(") ORDER BY id");
    } else {
        sql.append(") AND invalidated = 0 ORDER BY id");
    }
    sql
}

pub open spec fn related_files_bulk_query(n: nat) -> Seq<char> {
    "SELECT document_id, file_path FROM document_files WHERE document_id IN ("@ + placeholders(n)
        + ") ORDER BY document_id, file_path"@
}

/// The query that reads the related files of `n` documents at once.
pub fn related_files_bulk_sql(n: usize) -> (r: String)
    ensures
        r@ == related_files_bulk_query(n as nat),
{
    let mut sql = String::from_str(
        "SELECT document_id, file_path FROM document_files WHERE document_id IN (",
    );
    sql.append(placeholder_list(n).as_str());
    sql.append(") ORDER BY document_id, file_path");
    sql
}

/// The files that `rows` (pairs of document ID and file path) list for `id`, in row order.
pub open spec fn files_of(rows: Seq<(String, String)>, id: Seq<char>) -> Seq<Seq<char>>
    decreases rows.len(),
{
    if rows.len() == 0 {
        Seq::empty()
    } else {
        let r = files_of(rows.drop_last(), id);
        if rows.last().0@ == id {
            r.push(rows.last().1@)
        } else {
            r
        }
    }
}

/// The related files of each document of `ids`, in the order that the `(document, file)` rows
/// list them: the rows grouped by document.
pub fn files_by_document(ids: &Vec<String>, rows: &Vec<(String, String)>) -> (r: Vec<Vec<String>>)
    ensures
        r@.len() == ids@.len(),
        forall|k: int| 0 <= k < r@.len() ==> views((#[trigger] r@[k])@) == files_of(rows@, ids@[k]@),
{
    let mut out: Vec<Vec<String>> = Vec::new();
    let mut k: usize = 0;
    while k < ids.len()
        invariant
            k <= ids@.len(),
            out@.len() == k,
            forall|t: int| 0 <= t < k ==> views((#[trigger] out@[t])@) == files_of(rows@, ids@[t]@),
        decreases ids.len() - k,
    {
        let id = &ids[k];
        let mut files: Vec<String> = Vec::new();
        let mut i: usize = 0;
        while i < rows.len()
            invariant
                i <= rows@.len(),
                views(files@) == files_of(rows@.subrange(0, i as int), id@),
            decreases rows.len() - i,
        {
            let ghost before = files@;
            assert(rows@.subrange(0, i + 1).drop_last() =~= rows@.subrange(0, i as int));
            assert(rows@.subrange(0, i + 1).last() == rows@[i as int]);
            if rows[i].0 == *id {
                files.push(rows[i].1.clone());
                assert(views(files@) =~= views(before).push(rows@[i as int].1@));
            }
            i = i + 1;
        }
        assert(rows@.subrange(0, rows@.len() as int) =~= rows@);
        out.push(files);
        k = k + 1;
    }
    out
}

/// A listing keeps exactly the summaries that are asked for: every kept summary is one of
/// the given ones and is valid unless invalidated ones are included, and every given summary
/// that qualifies is kept.
pub proof fn law_listing_keeps_what_is_asked(s: Seq<DocumentSummary>, include_invalidated: bool)
    ensures
        forall|x: DocumentSummary| #[trigger] kept_summaries(s, include_invalidated).contains(x)
            <==> s.contains(x) && (include_invalidated || !x.invalidated),
    decreases s.len(),
{
    if s.len() > 0 {
        law_listing_keeps_what_is_asked(s.drop_last(), include_invalidated);
        let r = kept_summaries(s.drop_last(), include_invalidated);
        assert forall|x: DocumentSummary| #[trigger] kept_summaries(s, include_invalidated).contains(x)
            <==> s.contains(x) && (include_invalidated || !x.invalidated) by {
            vstd::seq_lib::lemma_seq_contains_after_push(r, s.last(), x);
            vstd::seq_lib::lemma_seq_contains_after_push(s.drop_last(), s.last(), x);
            assert(s.drop_last().push(s.last()) =~= s);
        }
    } else {
        assert forall|x: DocumentSummary| #[trigger] kept_summaries(s, include_invalidated).contains(x)
            <==> s.contains(x) && (include_invalidated || !x.invalidated) by {
            assert(kept_summaries(s, include_invalidated) =~= Seq::<DocumentSummary>::empty());
        }
    }
}

proof fn lemma_listed_file_has_a_row(rows: Seq<(String, String)>, id: Seq<char>, j: int)
    requires
        0 <= j < files_of(rows, id).len(),
    ensures
        exists|k: int| 0 <= k < rows.len() && (#[trigger] rows[k]).0@ == id && rows[k].1@ == files_of(rows, id)[j],
    decreases rows.len(),
{
    let init = rows.drop_last();
    let r = files_of(init, id);
    let last = rows.last();
    if j < r.len() {
        lemma_listed_file_has_a_row(init, id, j);
        let k = choose|k: int| 0 <= k < init.len() && (#[trigger] init[k]).0@ == id && init[k].1@ == r[j];
        assert(rows[k] == init[k]);
        assert(files_of(rows, id)[j] == r[j]);
    } else {
        assert(last.0@ == id);
        assert(files_of(rows, id)[j] == last.1@);
        assert(rows[rows.len() - 1] == last);
    }
}

/// Every row of a document contributes its file to the files grouped for it.
pub proof fn law_each_row_of_a_document_gives_its_file(rows: Seq<(String, String)>, id: Seq<char>)
    ensures
        forall|k: int| 0 <= k < rows.len() && (#[trigger] rows[k]).0@ == id ==> files_of(rows, id).contains(rows[k].1@),
    decreases rows.len(),
{
    if rows.len() > 0 {
        let init = rows.drop_last();
        law_each_row_of_a_document_gives_its_file(init, id);
        let r = files_of(init, id);
        let f = files_of(rows, id);
        let last = rows.last();
        assert forall|k: int| 0 <= k < rows.len() && (#[trigger] rows[k]).0@ == id implies f.contains(rows[k].1@) by {
            vstd::seq_lib::lemma_seq_contains_after_push(r, last.1@, rows[k].1@);
            if k < init.len() {
                assert(init[k] == rows[k]);
            } else {
                assert(rows[k] == last);
            }
        }
    }
}

/// Every file grouped for a document comes from a row of that document.
pub proof fn law_each_grouped_file_comes_from_a_row(rows: Seq<(String, String)>, id: Seq<char>, j: int)
    requires
        0 <= j < files_of(rows, id).len(),
    ensures
        exists|k: int| 0 <= k < rows.len() && (#[trigger] rows[k]).0@ == id && rows[k].1@ == files_of(rows, id)[j],
{
    lemma_listed_file_has_a_row(rows, id, j);
}

} // verus!
