use chrono::{DateTime, Utc};
use vstd::prelude::*;

use crate::db::GraphDocumentRow;
use crate::sql_log::{lemma_lex_irreflexive, lemma_lex_transitive, lex_less, lex_lt, lex_sorted, views};
use crate::text::chars_of;

verus! {

fn insert_id_sorted(out: &mut Vec<String>, id: String)
    requires
        lex_sorted(views(old(out)@)),
    ensures
        views(final(out)@).to_multiset() == views(old(out)@).to_multiset().insert(id@),
        lex_sorted(views(final(out)@)),
{
    let nv = chars_of(id.as_str());
    let mut p: usize = 0;
    let ghost before = out@;
    let mut keep_going = true;
    while keep_going && p < out.len()
        invariant
            p <= out@.len(),
            out@ == before,
            nv@ == id@,
            forall|j: int| 0 <= j < p ==> !lex_lt(id@, #[trigger] views(out@)[j]),
            !keep_going ==> p < out@.len() && lex_lt(id@, views(out@)[p as int]),
        decreases out.len() - p, (if keep_going { 1int } else { 0int }),
    {
        let cur = chars_of(out[p].as_str());
        if lex_less(&nv, &cur) {
            keep_going = false;
        } else {
            p = p + 1;
        }
    }
    out.insert(p, id);
    proof {
        let bm = views(before);
        let ms = views(out@);
        assert(ms =~= bm.insert(p as int, id@));
        vstd::seq_lib::to_multiset_insert(bm, p as int, id@);
        assert forall|i: int, j: int| 0 <= i < j < ms.len() implies !lex_lt(
            #[trigger] ms[j],
            #[trigger] ms[i],
        ) by {
            if j < p {
                assert(ms[i] == bm[i] && ms[j] == bm[j]);
            } else if j == p {
                assert(ms[i] == bm[i]);
            } else if i < p {
                assert(ms[i] == bm[i] && ms[j] == bm[j - 1]);
            } else if i == p {
                assert(ms[j] == bm[j - 1]);
                if lex_lt(bm[j - 1], id@) {
                    lemma_lex_transitive(bm[j - 1], id@, bm[p as int]);
                    if j - 1 > p {
                        assert(!lex_lt(bm[j - 1], bm[p as int]));
                    } else {
                        lemma_lex_irreflexive(bm[p as int]);
                    }
                }
            } else {
                assert(ms[i] == bm[i - 1] && ms[j] == bm[j - 1]);
            }
        }
    }
}

pub open spec fn row_ids(rows: Seq<GraphDocumentRow>) -> Seq<Seq<char>> {
    Seq::new(rows.len(), |i: int| rows[i].id@)
}

/// The document IDs in ascending code point order: the node numbering of the graph.
pub fn sorted_ids(documents: &Vec<GraphDocumentRow>) -> (r: Vec<String>)
    ensures
        views(r@).to_multiset() == row_ids(documents@).to_multiset(),
        lex_sorted(views(r@)),
{
    let mut out: Vec<String> = Vec::new();
    let mut i: usize = 0;
    proof {
        broadcast use vstd::multiset::group_multiset_axioms;

        assert(views(out@) =~= Seq::<Seq<char>>::empty());
        vstd::seq_lib::to_multiset_len(views(out@));
        vstd::multiset::lemma_multiset_empty_len(views(out@).to_multiset());
        assert(row_ids(documents@).subrange(0, 0) =~= Seq::<Seq<char>>::empty());
        vstd::seq_lib::to_multiset_len(row_ids(documents@).subrange(0, 0));
        vstd::multiset::lemma_multiset_empty_len(row_ids(documents@).subrange(0, 0).to_multiset());
    }
    while i < documents.len()
        invariant
            i <= documents@.len(),
            views(out@).to_multiset() == row_ids(documents@).subrange(0, i as int).to_multiset(),
            lex_sorted(views(out@)),
        decreases documents.len() - i,
    {
        let ghost pre = row_ids(documents@).subrange(0, i as int);
        insert_id_sorted(&mut out, documents[i].id.clone());
        proof {
            assert(row_ids(documents@).subrange(0, i + 1) =~= pre.push(documents@[i as int].id@));
            vstd::seq_lib::to_multiset_build(pre, documents@[i as int].id@);
        }
        i = i + 1;
    }
    assert(row_ids(documents@).subrange(0, documents@.len() as int) =~= row_ids(documents@));
    out
}

/// The node of an ID: the last position that holds it (a map built from the list keeps the
/// last index of each key), or none.
pub open spec fn node_of(ids: Seq<Seq<char>>, id: Seq<char>) -> Option<usize>
    decreases ids.len(),
{
    if ids.len() == 0 {
        None
    } else if ids.last() == id {
        Some((ids.len() - 1) as usize)
    } else {
        node_of(ids.drop_last(), id)
    }
}

proof fn lemma_node_of_bounds(ids: Seq<Seq<char>>, id: Seq<char>)
    requires
        ids.len() <= usize::MAX,
    ensures
        node_of(ids, id) matches Some(k) ==> k < ids.len() && ids[k as int] == id,
    decreases ids.len(),
{
    if ids.len() > 0 && ids.last() != id {
        lemma_node_of_bounds(ids.drop_last(), id);
    }
}

pub fn node_index(ids: &Vec<String>, id: &String) -> (r: Option<usize>)
    ensures
        r == node_of(views(ids@), id@),
        r matches Some(k) ==> k < ids@.len(),
{
    let mut k: usize = ids.len();
    proof {
        assert(views(ids@).subrange(0, k as int) =~= views(ids@));
    }
    while k > 0
        invariant
            k <= ids@.len(),
            node_of(views(ids@), id@) == node_of(views(ids@).subrange(0, k as int), id@),
        decreases k,
    {
        let ghost sub = views(ids@).subrange(0, k as int);
        proof {
            assert(sub.drop_last() =~= views(ids@).subrange(0, k - 1));
            assert(sub.last() == ids@[k - 1]@);
        }
        if ids[k - 1] == *id {
            return Some(k - 1);
        }
        k = k - 1;
    }
    None
}

/// The links whose two ends are both documents of the graph, as node pairs, in order.
pub open spec fn resolved_links(ids: Seq<Seq<char>>, links: Seq<(String, String)>) -> Seq<
    (usize, usize),
>
    decreases links.len(),
{
    if links.len() == 0 {
        Seq::empty()
    } else {
        let r = resolved_links(ids, links.drop_last());
        let l = links.last();
        match (node_of(ids, l.0@), node_of(ids, l.1@)) {
            (Some(a), Some(b)) => r.push((a, b)),
            _ => r,
        }
    }
}

/// The references between documents of the graph, as (from, to) node pairs.
pub fn resolve_links(ids: &Vec<String>, links: &Vec<(String, String)>) -> (r: Vec<(usize, usize)>)
    ensures
        r@ == resolved_links(views(ids@), links@),
        forall|k: int| 0 <= k < r@.len() ==> (#[trigger] r@[k]).0 < ids@.len() && r@[k].1 < ids@.len(),
{
    let mut out: Vec<(usize, usize)> = Vec::new();
    let mut i: usize = 0;
    while i < links.len()
        invariant
            i <= links@.len(),
            out@ == resolved_links(views(ids@), links@.subrange(0, i as int)),
            forall|k: int| 0 <= k < out@.len() ==> (#[trigger] out@[k]).0 < ids@.len() && out@[k].1 < ids@.len(),
        decreases links.len() - i,
    {
        let ghost sub = links@.subrange(0, i + 1);
        proof {
            assert(sub.drop_last() =~= links@.subrange(0, i as int));
            assert(sub.last() == links@[i as int]);
        }
        let a = node_index(ids, &links[i].0);
        let b = node_index(ids, &links[i].1);
        match (a, b) {
            (Some(x), Some(y)) => {
                out.push((x, y));
            },
            _ => {},
        }
        i = i + 1;
    }
    assert(links@.subrange(0, links@.len() as int) =~= links@);
    out
}

/// The nodes of the documents that list `file`, in membership order.
pub open spec fn file_members(ids: Seq<Seq<char>>, memberships: Seq<(String, String)>, file: Seq<
    char,
>) -> Seq<usize>
    decreases memberships.len(),
{
    if memberships.len() == 0 {
        Seq::empty()
    } else {
        let r = file_members(ids, memberships.drop_last(), file);
        let m = memberships.last();
        if m.1@ == file {
            match node_of(ids, m.0@) {
                Some(k) => r.push(k),
                None => r,
            }
        } else {
            r
        }
    }
}

/// A file names a group of co-referencing documents when two to `max_fanout` of them list it.
pub open spec fn is_group(ids: Seq<Seq<char>>, memberships: Seq<(String, String)>, file: Seq<char>, max_fanout: usize) -> bool {
    2 <= file_members(ids, memberships, file).len() <= max_fanout
}

proof fn lemma_file_members_step(ids: Seq<Seq<char>>, ms: Seq<(String, String)>, i: int, file: Seq<char>)
    requires
        0 <= i < ms.len(),
    ensures
        file_members(ids, ms.subrange(0, i + 1), file) == if ms[i].1@ == file {
            match node_of(ids, ms[i].0@) {
                Some(k) => file_members(ids, ms.subrange(0, i), file).push(k),
                None => file_members(ids, ms.subrange(0, i), file),
            }
        } else {
            file_members(ids, ms.subrange(0, i), file)
        },
{
    assert(ms.subrange(0, i + 1).drop_last() =~= ms.subrange(0, i));
    assert(ms.subrange(0, i + 1).last() == ms[i]);
}

proof fn lemma_file_members_nodes(ids: Seq<Seq<char>>, ms: Seq<(String, String)>, file: Seq<char>)
    requires
        ids.len() <= usize::MAX,
    ensures
        forall|k: int| 0 <= k < file_members(ids, ms, file).len() ==> (#[trigger] file_members(ids, ms, file)[k]) < ids.len(),
    decreases ms.len(),
{
    if ms.len() > 0 {
        lemma_file_members_nodes(ids, ms.drop_last(), file);
        lemma_node_of_bounds(ids, ms.last().0@);
        let prev = file_members(ids, ms.drop_last(), file);
        let cur = file_members(ids, ms, file);
        assert forall|k: int| 0 <= k < cur.len() implies #[trigger] cur[k] < ids.len() by {
            if k < prev.len() {
                assert(cur[k] == prev[k]);
            }
        }
    }
}

/// The nodes of the documents of the graph that list `file`, in membership order.
pub fn members_of_file(ids: &Vec<String>, memberships: &Vec<(String, String)>, file: &String) -> (r: Vec<usize>)
    ensures
        r@ == file_members(views(ids@), memberships@, file@),
        forall|k: int| 0 <= k < r@.len() ==> #[trigger] r@[k] < ids@.len(),
{
    let n_ids = ids.len();
    let mut out: Vec<usize> = Vec::new();
    let mut i: usize = 0;
    while i < memberships.len()
        invariant
            i <= memberships@.len(),
            out@ == file_members(views(ids@), memberships@.subrange(0, i as int), file@),
        decreases memberships.len() - i,
    {
        proof {
            lemma_file_members_step(views(ids@), memberships@, i as int, file@);
        }
        if memberships[i].1 == *file {
            match node_index(ids, &memberships[i].0) {
                Some(k) => {
                    out.push(k);
                },
                None => {},
            }
        }
        i = i + 1;
    }
    proof {
        assert(memberships@.subrange(0, memberships@.len() as int) =~= memberships@);
        assert(views(ids@).len() == n_ids);
        lemma_file_members_nodes(views(ids@), memberships@, file@);
    }
    out
}

/// The membership at `f` is the first to name its file.
pub open spec fn first_listing(memberships: Seq<(String, String)>, f: int) -> bool {
    forall|j: int| 0 <= j < f ==> (#[trigger] memberships[j]).1@ != memberships[f].1@
}

/// The groups of the files named by the first `n` memberships, each file once, in order of
/// first appearance.
pub open spec fn groups_upto(ids: Seq<Seq<char>>, memberships: Seq<(String, String)>, n: int, max_fanout: usize) -> Seq<Seq<usize>>
    decreases n,
{
    if n <= 0 {
        Seq::empty()
    } else {
        let r = groups_upto(ids, memberships, n - 1, max_fanout);
        let file = memberships[n - 1].1@;
        if first_listing(memberships, n - 1) && is_group(ids, memberships, file, max_fanout) {
            r.push(file_members(ids, memberships, file))
        } else {
            r
        }
    }
}

/// The groups of documents that share a file: for each file that two to `max_fanout`
/// documents of the graph list, the nodes of those documents in membership order; each file
/// once, in order of its first listing.
pub fn shared_file_groups(ids: &Vec<String>, memberships: &Vec<(String, String)>, max_fanout: usize) -> (r: Vec<Vec<usize>>)
    ensures
        r@.len() == groups_upto(views(ids@), memberships@, memberships@.len() as int, max_fanout).len(),
        forall|g: int| 0 <= g < r@.len() ==> (#[trigger] r@[g])@ == groups_upto(views(ids@), memberships@, memberships@.len() as int, max_fanout)[g],
        forall|g: int, k: int| 0 <= g < r@.len() && 0 <= k < r@[g]@.len() ==> #[trigger] r@[g]@[k] < ids@.len(),
        forall|g: int| 0 <= g < r@.len() ==> 2 <= (#[trigger] r@[g])@.len() <= max_fanout,
{
    let mut out: Vec<Vec<usize>> = Vec::new();
    let mut f: usize = 0;
    while f < memberships.len()
        invariant
            f <= memberships@.len(),
            out@.len() == groups_upto(views(ids@), memberships@, f as int, max_fanout).len(),
            forall|g: int| 0 <= g < out@.len() ==> (#[trigger] out@[g])@ == groups_upto(views(ids@), memberships@, f as int, max_fanout)[g],
            forall|g: int, k: int| 0 <= g < out@.len() && 0 <= k < out@[g]@.len() ==> #[trigger] out@[g]@[k] < ids@.len(),
            forall|g: int| 0 <= g < out@.len() ==> 2 <= (#[trigger] out@[g])@.len() <= max_fanout,
        decreases memberships.len() - f,
    {
        let file = &memberships[f].1;
        let mut j: usize = 0;
        let mut seen = false;
        while !seen && j < f
            invariant
                j <= f < memberships@.len(),
                file@ == memberships@[f as int].1@,
                forall|t: int| 0 <= t < j ==> (#[trigger] memberships@[t]).1@ != file@,
                seen ==> j < f && memberships@[j as int].1@ == file@,
            decreases f - j, (if seen { 0int } else { 1int }),
        {
            if memberships[j].1 == *file {
                seen = true;
            } else {
                j = j + 1;
            }
        }
        let ghost prev = out@;
        if !seen {
            let group = members_of_file(ids, memberships, file);
            let len = group.len();
            if 2 <= len && len <= max_fanout {
                out.push(group);
            }
        }
        proof {
            if seen {
                assert(!first_listing(memberships@, f as int));
            }
            assert forall|g: int| 0 <= g < out@.len() implies (#[trigger] out@[g])@ == groups_upto(views(ids@), memberships@, f + 1, max_fanout)[g] by {
                if g < prev.len() {
                    assert(out@[g] == prev[g]);
                }
            }
            assert forall|g: int, k: int| 0 <= g < out@.len() && 0 <= k < out@[g]@.len() implies #[trigger] out@[g]@[k] < ids@.len() by {
                if g < prev.len() {
                    assert(out@[g] == prev[g]);
                }
            }
            assert forall|g: int| 0 <= g < out@.len() implies 2 <= (#[trigger] out@[g])@.len() <= max_fanout by {
                if g < prev.len() {
                    assert(out@[g] == prev[g]);
                }
            }
        }
        f = f + 1;
    }
    out
}


/// An edge of the co-reference graph: `from` and `to` list a file that `group_size` documents
/// of the graph list.
#[derive(Clone, Copy, Debug, PartialEq, Eq, Structural)]
pub struct CoreferenceEdge {
    pub from: usize,
    pub to: usize,
    pub group_size: usize,
}

pub open spec fn coref(from: usize, to: usize, group_size: usize) -> CoreferenceEdge {
    CoreferenceEdge { from, to, group_size }
}

/// The edges from member `i` of a group to its members `0..m`, itself left out.
pub open spec fn row_edges(group: Seq<usize>, i: int, m: int) -> Seq<CoreferenceEdge>
    decreases m,
{
    if m <= 0 {
        Seq::empty()
    } else if m - 1 == i {
        row_edges(group, i, m - 1)
    } else {
        row_edges(group, i, m - 1).push(coref(group[i], group[m - 1], group.len() as usize))
    }
}

/// The edges from the first `n` members of a group to every other member.
pub open spec fn group_edges(group: Seq<usize>, n: int) -> Seq<CoreferenceEdge>
    decreases n,
{
    if n <= 0 {
        Seq::empty()
    } else {
        group_edges(group, n - 1) + row_edges(group, n - 1, group.len() as int)
    }
}

/// The edges of the first `n` groups, group after group.
pub open spec fn all_group_edges(groups: Seq<Seq<usize>>, n: int) -> Seq<CoreferenceEdge>
    decreases n,
{
    if n <= 0 {
        Seq::empty()
    } else {
        all_group_edges(groups, n - 1) + group_edges(groups[n - 1], groups[n - 1].len() as int)
    }
}

pub open spec fn group_views(groups: Seq<Vec<usize>>) -> Seq<Seq<usize>> {
    Seq::new(groups.len(), |g: int| groups[g]@)
}

/// The co-reference edges of the groups: within each group, an edge from every member to
/// every other member, carrying the size of the group.
pub fn coreference_edges(groups: &Vec<Vec<usize>>) -> (r: Vec<CoreferenceEdge>)
    ensures
        r@ == all_group_edges(group_views(groups@), groups@.len() as int),
{
    let ghost gs = group_views(groups@);
    let mut out: Vec<CoreferenceEdge> = Vec::new();
    let mut a: usize = 0;
    while a < groups.len()
        invariant
            a <= groups@.len(),
            gs == group_views(groups@),
            out@ == all_group_edges(gs, a as int),
        decreases groups.len() - a,
    {
        let group = &groups[a];
        let size = group.len();
        let ghost base = out@;
        assert(gs[a as int] == group@);
        let mut i: usize = 0;
        while i < size
            invariant
                i <= size,
                size == group@.len(),
                gs == group_views(groups@),
                group@ == gs[a as int],
                out@ == base + group_edges(group@, i as int),
            decreases size - i,
        {
            let ghost before_row = out@;
            let mut j: usize = 0;
            while j < size
                invariant
                    i < size,
                    j <= size,
                    size == group@.len(),
                    out@ == before_row + row_edges(group@, i as int, j as int),
                decreases size - j,
            {
                if j != i {
                    let e = CoreferenceEdge { from: group[i], to: group[j], group_size: size };
                    out.push(e);
                    assert(out@ =~= before_row + row_edges(group@, i as int, j + 1));
                } else {
                    assert(row_edges(group@, i as int, j + 1) == row_edges(group@, i as int, j as int));
                }
                j = j + 1;
            }
            assert(group_edges(group@, i + 1) == group_edges(group@, i as int) + row_edges(group@, i as int, size as int));
            assert(out@ =~= base + group_edges(group@, i + 1));
            i = i + 1;
        }
        assert(all_group_edges(gs, a + 1) == all_group_edges(gs, a as int) + group_edges(gs[a as int], size as int));
        a = a + 1;
    }
    out
}

/// `e` is the edge from member `i` to member `j` of `group`, two different positions.
pub open spec fn edge_between(group: Seq<usize>, e: CoreferenceEdge, i: int, j: int) -> bool {
    &&& 0 <= i < group.len()
    &&& 0 <= j < group.len()
    &&& i != j
    &&& e == coref(group[i], group[j], group.len() as usize)
}

proof fn lemma_row_edges_contains(group: Seq<usize>, i: int, m: int, e: CoreferenceEdge)
    requires
        0 <= i < group.len(),
        m <= group.len(),
    ensures
        row_edges(group, i, m).contains(e) <==> exists|j: int| 0 <= j < m && #[trigger] edge_between(group, e, i, j),
    decreases m,
{
    if m > 0 {
        lemma_row_edges_contains(group, i, m - 1, e);
        if exists|j: int| 0 <= j < m && #[trigger] edge_between(group, e, i, j) {
            let j = choose|j: int| 0 <= j < m && #[trigger] edge_between(group, e, i, j);
            if j < m - 1 {
                assert(exists|j2: int| 0 <= j2 < m - 1 && #[trigger] edge_between(group, e, i, j2));
            }
        }
        if m - 1 != i {
            vstd::seq_lib::lemma_seq_contains_after_push(
                row_edges(group, i, m - 1),
                coref(group[i], group[m - 1], group.len() as usize),
                e,
            );
            if e == coref(group[i], group[m - 1], group.len() as usize) {
                assert(edge_between(group, e, i, m - 1));
            }
        }
    }
}

proof fn lemma_group_edges_contains(group: Seq<usize>, n: int, e: CoreferenceEdge)
    requires
        n <= group.len(),
    ensures
        group_edges(group, n).contains(e) <==> exists|i: int, j: int| 0 <= i < n && #[trigger] edge_between(group, e, i, j),
    decreases n,
{
    if n > 0 {
        lemma_group_edges_contains(group, n - 1, e);
        lemma_row_edges_contains(group, n - 1, group.len() as int, e);
        vstd::seq_lib::lemma_seq_concat_contains_all_elements(
            group_edges(group, n - 1),
            row_edges(group, n - 1, group.len() as int),
            e,
        );
        if exists|i: int, j: int| 0 <= i < n && #[trigger] edge_between(group, e, i, j) {
            let (i, j) = choose|i: int, j: int| 0 <= i < n && #[trigger] edge_between(group, e, i, j);
            if i < n - 1 {
                assert(exists|i2: int, j2: int| 0 <= i2 < n - 1 && #[trigger] edge_between(group, e, i2, j2));
            } else {
                assert(exists|j2: int| 0 <= j2 < group.len() && #[trigger] edge_between(group, e, n - 1, j2));
            }
        }
        if exists|j: int| 0 <= j < group.len() && #[trigger] edge_between(group, e, n - 1, j) {
            let j = choose|j: int| 0 <= j < group.len() && #[trigger] edge_between(group, e, n - 1, j);
            assert(exists|i2: int, j2: int| 0 <= i2 < n && #[trigger] edge_between(group, e, i2, j2));
        }
    }
}

proof fn lemma_all_group_edges_contains(groups: Seq<Seq<usize>>, n: int, e: CoreferenceEdge)
    requires
        n <= groups.len(),
    ensures
        all_group_edges(groups, n).contains(e) <==> exists|a: int, i: int, j: int| 0 <= a < n && #[trigger] edge_between(groups[a], e, i, j),
    decreases n,
{
    if n > 0 {
        let g = groups[n - 1];
        lemma_all_group_edges_contains(groups, n - 1, e);
        lemma_group_edges_contains(g, g.len() as int, e);
        vstd::seq_lib::lemma_seq_concat_contains_all_elements(
            all_group_edges(groups, n - 1),
            group_edges(g, g.len() as int),
            e,
        );
        if exists|a: int, i: int, j: int| 0 <= a < n && #[trigger] edge_between(groups[a], e, i, j) {
            let (a, i, j) = choose|a: int, i: int, j: int| 0 <= a < n && #[trigger] edge_between(groups[a], e, i, j);
            if a < n - 1 {
                assert(exists|a2: int, i2: int, j2: int| 0 <= a2 < n - 1 && #[trigger] edge_between(groups[a2], e, i2, j2));
            } else {
                assert(exists|i2: int, j2: int| 0 <= i2 < g.len() && #[trigger] edge_between(g, e, i2, j2));
            }
        }
        if exists|i: int, j: int| 0 <= i < g.len() && #[trigger] edge_between(g, e, i, j) {
            let (i, j) = choose|i: int, j: int| 0 <= i < g.len() && #[trigger] edge_between(g, e, i, j);
            assert(edge_between(groups[n - 1], e, i, j));
        }
    }
}

/// Co-reference is symmetric: whenever an edge joins one document of a group to another, the
/// edge back, carrying the same group size, is there too.
pub proof fn law_coreference_is_symmetric(groups: Seq<Seq<usize>>, e: CoreferenceEdge)
    requires
        all_group_edges(groups, groups.len() as int).contains(e),
    ensures
        all_group_edges(groups, groups.len() as int).contains(coref(e.to, e.from, e.group_size)),
{
    let back = coref(e.to, e.from, e.group_size);
    lemma_all_group_edges_contains(groups, groups.len() as int, e);
    let (a, i, j) = choose|a: int, i: int, j: int| 0 <= a < groups.len() && #[trigger] edge_between(groups[a], e, i, j);
    assert(edge_between(groups[a], back, j, i));
    lemma_all_group_edges_contains(groups, groups.len() as int, back);
}

/// The creation time of the first row that holds `id`, or none.
pub open spec fn first_created_at(rows: Seq<GraphDocumentRow>, id: Seq<char>) -> Option<Seq<char>>
    decreases rows.len(),
{
    if rows.len() == 0 {
        None
    } else if rows[0].id@ == id {
        Some(rows[0].created_at@)
    } else {
        first_created_at(rows.drop_first(), id)
    }
}

/// The creation time recorded for a document of the graph: that of the first row with its ID.
pub fn created_at_of(documents: &Vec<GraphDocumentRow>, id: &String) -> (r: Option<String>)
    ensures
        r matches Some(t) ==> first_created_at(documents@, id@) == Some(t@),
        r is None ==> first_created_at(documents@, id@) is None,
{
    let mut i: usize = 0;
    assert(documents@.subrange(0, documents@.len() as int) =~= documents@);
    while i < documents.len()
        invariant
            i <= documents@.len(),
            first_created_at(documents@, id@) == first_created_at(documents@.subrange(i as int, documents@.len() as int), id@),
        decreases documents.len() - i,
    {
        let ghost rest = documents@.subrange(i as int, documents@.len() as int);
        assert(rest.drop_first() =~= documents@.subrange(i + 1, documents@.len() as int));
        assert(rest[0] == documents@[i as int]);
        if documents[i].id == *id {
            return Some(documents[i].created_at.clone());
        }
        i = i + 1;
    }
    None
}

/// The integer structure of the document graph: the nodes (document IDs in ascending order),
/// the references between them, the co-reference edges of shared files, and the creation
/// time of each node.
#[derive(Clone, Debug)]
pub struct GraphStructure {
    pub ids: Vec<String>,
    pub references: Vec<(usize, usize)>,
    pub coreferences: Vec<CoreferenceEdge>,
    pub created_at: Vec<Option<String>>,
}

impl GraphStructure {
    /// Builds the structure from the documents, the document references `(from, to)` and the
    /// file memberships `(document, file)`; a file listed by more than `max_file_fanout`
    /// documents makes no edges.
    pub fn build(
        documents: &Vec<GraphDocumentRow>,
        links: &Vec<(String, String)>,
        file_memberships: &Vec<(String, String)>,
        max_file_fanout: usize,
    ) -> (g: GraphStructure)
        ensures
            views(g.ids@).to_multiset() == row_ids(documents@).to_multiset(),
            lex_sorted(views(g.ids@)),
            g.references@ == resolved_links(views(g.ids@), links@),
            forall|k: int| 0 <= k < g.references@.len() ==> (#[trigger] g.references@[k]).0 < g.ids@.len() && g.references@[k].1 < g.ids@.len(),
            exists|groups: Seq<Seq<usize>>|
                groups == groups_upto(views(g.ids@), file_memberships@, file_memberships@.len() as int, max_file_fanout)
                && g.coreferences@ == all_group_edges(groups, groups.len() as int),
            forall|k: int|
                0 <= k < g.coreferences@.len() ==> {
                    &&& (#[trigger] g.coreferences@[k]).from < g.ids@.len()
                    &&& g.coreferences@[k].to < g.ids@.len()
                    &&& 2 <= g.coreferences@[k].group_size <= max_file_fanout
                },
            g.created_at@.len() == g.ids@.len(),
            forall|k: int| 0 <= k < g.ids@.len() ==> match #[trigger] g.created_at@[k] {
                Some(t) => first_created_at(documents@, g.ids@[k]@) == Some(t@),
                None => first_created_at(documents@, g.ids@[k]@) is None,
            },
    {
        let ids = sorted_ids(documents);
        let references = resolve_links(&ids, links);
        let groups = shared_file_groups(&ids, file_memberships, max_file_fanout);
        let coreferences = coreference_edges(&groups);
        proof {
            let gs = groups_upto(views(ids@), file_memberships@, file_memberships@.len() as int, max_file_fanout);
            assert(group_views(groups@) =~= gs);
            assert forall|k: int| 0 <= k < coreferences@.len() implies {
                &&& (#[trigger] coreferences@[k]).from < ids@.len()
                &&& coreferences@[k].to < ids@.len()
                &&& 2 <= coreferences@[k].group_size <= max_file_fanout
            } by {
                let e = coreferences@[k];
                assert(all_group_edges(gs, gs.len() as int).contains(e));
                lemma_all_group_edges_contains(gs, gs.len() as int, e);
                let (a, i, j) = choose|a: int, i: int, j: int| 0 <= a < gs.len() && #[trigger] edge_between(gs[a], e, i, j);
                assert(gs[a] == groups@[a]@);
                assert(groups@[a]@[i] < ids@.len());
                assert(groups@[a]@[j] < ids@.len());
            }
        }
        let mut created_at: Vec<Option<String>> = Vec::new();
        let mut k: usize = 0;
        while k < ids.len()
            invariant
                k <= ids@.len(),
                created_at@.len() == k,
                forall|t: int| 0 <= t < k ==> match #[trigger] created_at@[t] {
                    Some(c) => first_created_at(documents@, ids@[t]@) == Some(c@),
                    None => first_created_at(documents@, ids@[t]@) is None,
                },
            decreases ids.len() - k,
        {
            let c = created_at_of(documents, &ids[k]);
            created_at.push(c);
            k = k + 1;
        }
        GraphStructure { ids, references, coreferences, created_at }
    }
}

/// The instant, as seconds since 1970 and nanoseconds, that an RFC 3339 text names, if it
/// parses as one (`DateTime::parse_from_rfc3339`).
pub uninterp spec fn rfc3339_instant(raw: Seq<char>) -> Option<(i64, u32)>;

/// The instant that a text names when it parses as a UTC date-time with `FromStr` for
/// `DateTime<Utc>`, if it does.
pub uninterp spec fn utc_instant(raw: Seq<char>) -> Option<(i64, u32)>;

/// Calls chrono's `DateTime::parse_from_rfc3339` and reads the instant with `timestamp` and
/// `timestamp_subsec_nanos`; the contract claims that the result is the named instant of the
/// text.
#[verifier::external_body]
fn parse_rfc3339_instant(raw: &str) -> (r: Option<(i64, u32)>)
    ensures
        r == rfc3339_instant(raw@),
{
    DateTime::parse_from_rfc3339(raw).ok().map(|d| (d.timestamp(), d.timestamp_subsec_nanos()))
}

/// Calls `str::parse::<DateTime<Utc>>` (chrono's `FromStr`) and reads the instant as above;
/// the contract claims that the result is the named instant of the text.
#[verifier::external_body]
fn parse_utc_instant(raw: &str) -> (r: Option<(i64, u32)>)
    ensures
        r == utc_instant(raw@),
{
    raw.parse::<DateTime<Utc>>().ok().map(|d| (d.timestamp(), d.timestamp_subsec_nanos()))
}

/// The instant a creation time names: read as RFC 3339 first, as a UTC date-time otherwise.
pub open spec fn instant_of(raw: Seq<char>) -> Option<(i64, u32)> {
    match rfc3339_instant(raw) {
        Some(t) => Some(t),
        None => utc_instant(raw),
    }
}

/// The instant of a creation time, or none when it parses neither way.
pub fn created_instant(raw: &str) -> (r: Option<(i64, u32)>)
    ensures
        r == instant_of(raw@),
{
    match parse_rfc3339_instant(raw) {
        Some(t) => Some(t),
        None => parse_utc_instant(raw),
    }
}

/// The instants of the graph's creation times, node by node; none where a node has no time
/// or its time does not parse.
pub fn created_instants(created_at: &Vec<Option<String>>) -> (r: Vec<Option<(i64, u32)>>)
    ensures
        r@.len() == created_at@.len(),
        forall|k: int| 0 <= k < r@.len() ==> #[trigger] r@[k] == match created_at@[k] {
            Some(t) => instant_of(t@),
            None => None,
        },
{
    let mut out: Vec<Option<(i64, u32)>> = Vec::new();
    let mut k: usize = 0;
    while k < created_at.len()
        invariant
            k <= created_at@.len(),
            out@.len() == k,
            forall|t: int| 0 <= t < k ==> #[trigger] out@[t] == match created_at@[t] {
                Some(c) => instant_of(c@),
                None => None,
            },
        decreases created_at.len() - k,
    {
        let v = match &created_at[k] {
            Some(t) => created_instant(t.as_str()),
            None => None,
        };
        out.push(v);
        k = k + 1;
    }
    out
}

} // verus!
