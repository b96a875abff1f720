use vstd::prelude::*;

use crate::models::{stored_name, Document};
use crate::paths::{join, join_path, memory_dir_of};
use crate::text::{is_infix, lemma_infix_at, lemma_infix_widen};
use crate::sql_log::{sql_literal, sql_optional_string, sql_string};

verus! {

pub open spec fn insert_header(id: Seq<char>, created_at: Seq<char>) -> Seq<char> {
    "-- memorybank patch: add\n"@ + "-- id: "@ + id + "\n"@ + "-- created_at: "@ + created_at
        + "\n\n"@ + "BEGIN;\n"@
}

pub open spec fn document_row(doc: Document) -> Seq<char> {
    "INSERT INTO documents (id, document_path, created_at, invalidated, invalidation_reason, quick_summary, document_type) VALUES ("@
        + sql_literal(doc.id@) + ", "@ + sql_literal(doc.document_path@) + ", "@ + sql_literal(
        doc.created_at@,
    ) + ", 0, "@ + "NULL"@ + ", "@ + sql_literal(doc.quick_summary@) + ", "@ + sql_literal(
        stored_name(doc.document_type),
    ) + ");\n"@
}

pub open spec fn file_rows(id: Seq<char>, files: Seq<String>) -> Seq<char>
    decreases files.len(),
{
    if files.len() == 0 {
        Seq::empty()
    } else {
        file_rows(id, files.drop_last())
            + "INSERT INTO document_files (document_id, file_path) VALUES ("@ + sql_literal(id)
            + ", "@ + sql_literal(files.last()@) + ");\n"@
    }
}

pub open spec fn link_rows(id: Seq<char>, related: Seq<String>) -> Seq<char>
    decreases related.len(),
{
    if related.len() == 0 {
        Seq::empty()
    } else {
        link_rows(id, related.drop_last())
            + "INSERT INTO document_links (from_document_id, to_document_id) VALUES ("@
            + sql_literal(id) + ", "@ + sql_literal(related.last()@) + ");\n"@
    }
}

/// The patch that records a new document: a commented header, then one transaction that
/// inserts the document, its related files and its links.
pub open spec fn insert_patch(doc: Document, files: Seq<String>, related: Seq<String>) -> Seq<
    char,
> {
    insert_header(doc.id@, doc.created_at@) + document_row(doc) + file_rows(doc.id@, files)
        + link_rows(doc.id@, related) + "COMMIT;\n"@
}

/// The row that records one related file of document `id`.
pub open spec fn file_row(id: Seq<char>, file: Seq<char>) -> Seq<char> {
    "INSERT INTO document_files (document_id, file_path) VALUES ("@ + sql_literal(id) + ", "@
        + sql_literal(file) + ");\n"@
}

/// The row that records one link from document `id` to `to`.
pub open spec fn link_row(id: Seq<char>, to: Seq<char>) -> Seq<char> {
    "INSERT INTO document_links (from_document_id, to_document_id) VALUES ("@ + sql_literal(id)
        + ", "@ + sql_literal(to) + ");\n"@
}

/// The file rows of a joined list are the rows of each part, one after the other; a list of
/// one file gives that file's row.
pub proof fn law_file_rows_follow_the_list(id: Seq<char>, a: Seq<String>, b: Seq<String>, f: String)
    ensures
        file_rows(id, a + b) == file_rows(id, a) + file_rows(id, b),
        file_rows(id, seq![f]) == file_row(id, f@),
    decreases b.len(),
{
    if b.len() == 0 {
        assert(a + b =~= a);
        assert(file_rows(id, a) + file_rows(id, b) =~= file_rows(id, a));
    } else {
        law_file_rows_follow_the_list(id, a, b.drop_last(), f);
        assert((a + b).drop_last() =~= a + b.drop_last());
        assert((a + b).last() == b.last());
        assert(file_rows(id, a + b) =~= file_rows(id, a) + file_rows(id, b));
    }
    assert(seq![f].drop_last() =~= Seq::<String>::empty());
    assert(seq![f].last() == f);
    assert(file_rows(id, Seq::<String>::empty()) == Seq::<char>::empty());
    assert(file_rows(id, seq![f]) == file_rows(id, Seq::<String>::empty())
        + "INSERT INTO document_files (document_id, file_path) VALUES ("@ + sql_literal(id) + ", "@
        + sql_literal(f@) + ");\n"@);
    assert(file_rows(id, seq![f]) =~= file_row(id, f@));
}

/// The link rows of a joined list are the rows of each part, one after the other; a list of
/// one ID gives that link's row.
pub proof fn law_link_rows_follow_the_list(id: Seq<char>, a: Seq<String>, b: Seq<String>, t: String)
    ensures
        link_rows(id, a + b) == link_rows(id, a) + link_rows(id, b),
        link_rows(id, seq![t]) == link_row(id, t@),
    decreases b.len(),
{
    if b.len() == 0 {
        assert(a + b =~= a);
        assert(link_rows(id, a) + link_rows(id, b) =~= link_rows(id, a));
    } else {
        law_link_rows_follow_the_list(id, a, b.drop_last(), t);
        assert((a + b).drop_last() =~= a + b.drop_last());
        assert((a + b).last() == b.last());
        assert(link_rows(id, a + b) =~= link_rows(id, a) + link_rows(id, b));
    }
    assert(seq![t].drop_last() =~= Seq::<String>::empty());
    assert(seq![t].last() == t);
    assert(link_rows(id, Seq::<String>::empty()) == Seq::<char>::empty());
    assert(link_rows(id, seq![t]) == link_rows(id, Seq::<String>::empty())
        + "INSERT INTO document_links (from_document_id, to_document_id) VALUES ("@
        + sql_literal(id) + ", "@ + sql_literal(t@) + ");\n"@);
    assert(link_rows(id, seq![t]) =~= link_row(id, t@));
}

/// The patch of a new document records every related file and every link, each in its own
/// row with the document's ID.
pub proof fn law_patch_records_each_file_and_link(doc: Document, files: Seq<String>, related: Seq<String>)
    ensures
        forall|k: int| 0 <= k < files.len() ==> is_infix(file_row(doc.id@, (#[trigger] files[k])@), insert_patch(doc, files, related)),
        forall|k: int| 0 <= k < related.len() ==> is_infix(link_row(doc.id@, (#[trigger] related[k])@), insert_patch(doc, files, related)),
{
    let id = doc.id@;
    let head = insert_header(doc.id@, doc.created_at@) + document_row(doc);
    let fr = file_rows(id, files);
    let lr = link_rows(id, related);
    assert(insert_patch(doc, files, related) == head + fr + lr + "COMMIT;\n"@);
    assert forall|k: int| 0 <= k < files.len() implies is_infix(file_row(id, (#[trigger] files[k])@), insert_patch(doc, files, related)) by {
        let pre = files.subrange(0, k);
        let post = files.subrange(k + 1, files.len() as int);
        assert(files =~= pre + seq![files[k]] + post);
        law_file_rows_follow_the_list(id, pre + seq![files[k]], post, files[k]);
        law_file_rows_follow_the_list(id, pre, seq![files[k]], files[k]);
        assert(fr == file_rows(id, pre) + file_row(id, files[k]@) + file_rows(id, post));
        lemma_infix_at(file_rows(id, pre), file_row(id, files[k]@), file_rows(id, post));
        lemma_infix_widen(file_row(id, files[k]@), head, fr, lr + "COMMIT;\n"@);
        assert(head + fr + (lr + "COMMIT;\n"@) =~= insert_patch(doc, files, related));
    }
    assert forall|k: int| 0 <= k < related.len() implies is_infix(link_row(id, (#[trigger] related[k])@), insert_patch(doc, files, related)) by {
        let pre = related.subrange(0, k);
        let post = related.subrange(k + 1, related.len() as int);
        assert(related =~= pre + seq![related[k]] + post);
        law_link_rows_follow_the_list(id, pre + seq![related[k]], post, related[k]);
        law_link_rows_follow_the_list(id, pre, seq![related[k]], related[k]);
        assert(lr == link_rows(id, pre) + link_row(id, related[k]@) + link_rows(id, post));
        lemma_infix_at(link_rows(id, pre), link_row(id, related[k]@), link_rows(id, post));
        lemma_infix_widen(link_row(id, related[k]@), head + fr, lr, "COMMIT;\n"@);
        assert(head + fr + lr + "COMMIT;\n"@ =~= insert_patch(doc, files, related));
    }
}

/// The SQL patch that inserts `doc` with its related files and documents.
pub fn render_insert_sql(doc: &Document, related_files: &Vec<String>, related_documents: &Vec<
    String,
>) -> (r: String)
    ensures
        r@ == insert_patch(*doc, related_files@, related_documents@),
{
    let mut sql = String::from_str("-- memorybank patch: add\n");
    sql.append("-- id: ");
    sql.append(doc.id.as_str());
    sql.append("\n");
    sql.append("-- created_at: ");
    sql.append(doc.created_at.as_str());
    sql.append("\n\n");
    sql.append("BEGIN;\n");
    assert(sql@ =~= insert_header(doc.id@, doc.created_at@));
    let id = sql_string(doc.id.as_str());
    sql.append(
        "INSERT INTO documents (id, document_path, created_at, invalidated, invalidation_reason, quick_summary, document_type) VALUES (",
    );
    sql.append(id.as_str());
    sql.append(", ");
    sql.append(sql_string(doc.document_path.as_str()).as_str());
    sql.append(", ");
    sql.append(sql_string(doc.created_at.as_str()).as_str());
    sql.append(", 0, ");
    sql.append(sql_optional_string(None).as_str());
    sql.append(", ");
    sql.append(sql_string(doc.quick_summary.as_str()).as_str());
    sql.append(", ");
    sql.append(sql_string(doc.document_type.as_str()).as_str());
    sql.append(");\n");
    assert(sql@ =~= insert_header(doc.id@, doc.created_at@) + document_row(*doc));
    let ghost head = sql@;
    let mut i: usize = 0;
    while i < related_files.len()
        invariant
            i <= related_files@.len(),
            id@ == sql_literal(doc.id@),
            sql@ == head + file_rows(doc.id@, related_files@.subrange(0, i as int)),
        decreases related_files.len() - i,
    {
        sql.append("INSERT INTO document_files (document_id, file_path) VALUES (");
        sql.append(id.as_str());
        sql.append(", ");
        sql.append(sql_string(related_files[i].as_str()).as_str());
        sql.append(");\n");
        let ghost sub = related_files@.subrange(0, i + 1);
        assert(sub.drop_last() =~= related_files@.subrange(0, i as int));
        assert(sub.last() == related_files@[i as int]);
        i = i + 1;
        assert(sql@ =~= head + file_rows(doc.id@, related_files@.subrange(0, i as int)));
    }
    assert(related_files@.subrange(0, related_files@.len() as int) =~= related_files@);
    let ghost head2 = sql@;
    let mut j: usize = 0;
    while j < related_documents.len()
        invariant
            j <= related_documents@.len(),
            id@ == sql_literal(doc.id@),
            sql@ == head2 + link_rows(doc.id@, related_documents@.subrange(0, j as int)),
        decreases related_documents.len() - j,
    {
        sql.append("INSERT INTO document_links (from_document_id, to_document_id) VALUES (");
        sql.append(id.as_str());
        sql.append(", ");
        sql.append(sql_string(related_documents[j].as_str()).as_str());
        sql.append(");\n");
        let ghost sub = related_documents@.subrange(0, j + 1);
        assert(sub.drop_last() =~= related_documents@.subrange(0, j as int));
        assert(sub.last() == related_documents@[j as int]);
        j = j + 1;
        assert(sql@ =~= head2 + link_rows(doc.id@, related_documents@.subrange(0, j as int)));
    }
    assert(related_documents@.subrange(0, related_documents@.len() as int) =~= related_documents@);
    sql.append("COMMIT;\n");
    assert(sql@ =~= insert_patch(*doc, related_files@, related_documents@));
    sql
}

/// Where a document's body lives: its stored path under `<root>/.memory`.
pub fn document_file_path(root: &str, document: &Document) -> (r: String)
    ensures
        r@ == join_path(memory_dir_of(root@), document.document_path@),
{
    let m = crate::paths::memory_dir(root);
    join(m.as_str(), document.document_path.as_str())
}

} // verus!
