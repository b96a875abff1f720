use vstd::prelude::*;

use crate::models::{stored_name, Document, DocumentSummary};
use crate::paths::{join, join_path};
use crate::text::{
    chars_of, grouped_decimal, is_infix, lemma_infix_at, lemma_infix_trans, lemma_infix_widen,
    push_chars, push_grouped_decimal, trim_end, trim_end_bound,
};

verus! {

/// How `{}` prints a boolean.
pub open spec fn bool_text(b: bool) -> Seq<char> {
    if b {
        "true"@
    } else {
        "false"@
    }
}

fn push_bool(out: &mut String, b: bool)
    ensures
        final(out)@ == old(out)@ + bool_text(b),
{
    if b {
        out.append("true");
    } else {
        out.append("false");
    }
}

pub open spec fn init_text(root: Seq<char>, rebuild: bool, init_patch: Seq<char>) -> Seq<char> {
    "# Memory Bank Initialized\n\n"@ + "- **Root:** `"@ + root + "`\n"@
        + "- **Memory directory:** `"@ + join_path(root, ".memory"@) + "`\n"@
        + "- **Documents directory:** `"@ + join_path(root, ".memory/documents"@) + "`\n"@
        + "- **SQL directory:** `"@ + join_path(root, ".memory/sql"@) + "`\n"@
        + "- **Database:** `"@ + join_path(root, ".memory/memorybank.sqlite3"@) + "`\n"@
        + "- **Init patch:** `"@ + init_patch + "`\n"@ + "- **Rebuilt:** `"@ + bool_text(rebuild)
        + "`\n"@
}

/// Appends the report of `init`.
pub fn print_init(out: &mut String, root: &str, rebuild: bool, init_patch: &str)
    ensures
        final(out)@ == old(out)@ + init_text(root@, rebuild, init_patch@),
{
    out.append("# Memory Bank Initialized\n\n");
    out.append("- **Root:** `");
    out.append(root);
    out.append("`\n");
    out.append("- **Memory directory:** `");
    out.append(join(root, ".memory").as_str());
    out.append("`\n");
    out.append("- **Documents directory:** `");
    out.append(join(root, ".memory/documents").as_str());
    out.append("`\n");
    out.append("- **SQL directory:** `");
    out.append(join(root, ".memory/sql").as_str());
    out.append("`\n");
    out.append("- **Database:** `");
    out.append(join(root, ".memory/memorybank.sqlite3").as_str());
    out.append("`\n");
    out.append("- **Init patch:** `");
    out.append(init_patch);
    out.append("`\n");
    out.append("- **Rebuilt:** `");
    push_bool(out, rebuild);
    out.append("`\n");
    assert(out@ =~= old(out)@ + init_text(root@, rebuild, init_patch@));
}

pub open spec fn bullet_lines(values: Seq<String>) -> Seq<char>
    decreases values.len(),
{
    if values.len() == 0 {
        Seq::empty()
    } else {
        bullet_lines(values.drop_last()) + "- `"@ + values.last()@ + "`\n"@
    }
}

/// A titled list of code-formatted values, or `None.` when there are none.
pub open spec fn string_list_text(label: Seq<char>, values: Seq<String>) -> Seq<char> {
    "\n## "@ + label + "\n\n"@ + if values.len() == 0 {
        "None.\n"@
    } else {
        bullet_lines(values)
    }
}

fn print_string_list(out: &mut String, label: &str, values: &Vec<String>)
    ensures
        final(out)@ == old(out)@ + string_list_text(label@, values@),
{
    out.append("\n## ");
    out.append(label);
    out.append("\n\n");
    if values.len() == 0 {
        out.append("None.\n");
    } else {
        let ghost head = out@;
        let mut i: usize = 0;
        while i < values.len()
            invariant
                i <= values@.len(),
                out@ == head + bullet_lines(values@.subrange(0, i as int)),
            decreases values.len() - i,
        {
            out.append("- `");
            out.append(values[i].as_str());
            out.append("`\n");
            let ghost sub = values@.subrange(0, i + 1);
            assert(sub.drop_last() =~= values@.subrange(0, i as int));
            i = i + 1;
            assert(out@ =~= head + bullet_lines(values@.subrange(0, i as int)));
        }
        assert(values@.subrange(0, values@.len() as int) =~= values@);
    }
    assert(out@ =~= old(out)@ + string_list_text(label@, values@));
}

pub open spec fn added_header_text(doc: Document, sql_patch: Seq<char>) -> Seq<char> {
    "# Memory Document Added\n\n"@ + "- **ID:** `"@ + doc.id@ + "`\n"@ + "- **Type:** "@
        + stored_name(doc.document_type) + "\n"@ + "- **Created:** `"@ + doc.created_at@
        + "`\n"@ + "- **Summary:** "@ + doc.quick_summary@ + "\n"@ + "- **Path:** `"@
        + doc.document_path@ + "`\n"@ + "- **SQL patch:** `"@ + sql_patch + "`\n"@
}

pub open spec fn add_success_text(
    doc: Document,
    related_files: Seq<String>,
    related_docs: Seq<String>,
    sql_patch: Seq<char>,
) -> Seq<char> {
    added_header_text(doc, sql_patch) + string_list_text("Related files"@, related_files)
        + string_list_text("Related documents"@, related_docs)
}

fn print_added_header(out: &mut String, doc: &Document, sql_patch: &str)
    ensures
        final(out)@ == old(out)@ + added_header_text(*doc, sql_patch@),
{
    out.append("# Memory Document Added\n\n");
    out.append("- **ID:** `");
    out.append(doc.id.as_str());
    out.append("`\n");
    out.append("- **Type:** ");
    out.append(doc.document_type.as_str());
    out.append("\n");
    out.append("- **Created:** `");
    out.append(doc.created_at.as_str());
    out.append("`\n");
    out.append("- **Summary:** ");
    out.append(doc.quick_summary.as_str());
    out.append("\n");
    out.append("- **Path:** `");
    out.append(doc.document_path.as_str());
    out.append("`\n");
    out.append("- **SQL patch:** `");
    out.append(sql_patch);
    out.append("`\n");
    assert(out@ =~= old(out)@ + added_header_text(*doc, sql_patch@));
}

/// Appends the report of `add`.
pub fn print_add_success(
    out: &mut String,
    doc: &Document,
    related_files: &Vec<String>,
    related_docs: &Vec<String>,
    sql_patch: &str,
)
    ensures
        final(out)@ == old(out)@ + add_success_text(*doc, related_files@, related_docs@, sql_patch@),
{
    print_added_header(out, doc, sql_patch);
    print_string_list(out, "Related files", related_files);
    print_string_list(out, "Related documents", related_docs);
    assert(out@ =~= old(out)@ + add_success_text(*doc, related_files@, related_docs@, sql_patch@));
}

pub open spec fn invalidated_suffix_text(s: DocumentSummary) -> Seq<char> {
    if s.invalidated {
        " (invalidated)"@
    } else {
        Seq::empty()
    }
}

fn invalidated_suffix(summary: &DocumentSummary) -> (r: String)
    ensures
        r@ == invalidated_suffix_text(*summary),
{
    if summary.invalidated {
        String::from_str(" (invalidated)")
    } else {
        String::new()
    }
}

pub open spec fn related_lines(related: Seq<DocumentSummary>) -> Seq<char>
    decreases related.len(),
{
    if related.len() == 0 {
        Seq::empty()
    } else {
        let s = related.last();
        related_lines(related.drop_last()) + "- **ID:** `"@ + s.id@ + "` — "@ + stored_name(
            s.document_type,
        ) + " — "@ + s.quick_summary@ + invalidated_suffix_text(s) + "\n"@
    }
}

/// The suggestions section: one line per related document, or a note that there are none.
pub open spec fn related_text(related: Seq<DocumentSummary>) -> Seq<char> {
    "\n## Related Suggestions\n\n"@ + if related.len() == 0 {
        "No related suggestions.\n"@
    } else {
        related_lines(related)
    }
}

fn print_related(out: &mut String, related: &Vec<DocumentSummary>)
    ensures
        final(out)@ == old(out)@ + related_text(related@),
{
    out.append("\n## Related Suggestions\n\n");
    if related.len() == 0 {
        out.append("No related suggestions.\n");
    } else {
        let ghost head = out@;
        let mut i: usize = 0;
        while i < related.len()
            invariant
                i <= related@.len(),
                out@ == head + related_lines(related@.subrange(0, i as int)),
            decreases related.len() - i,
        {
            let s = &related[i];
            out.append("- **ID:** `");
            out.append(s.id.as_str());
            out.append("` — ");
            out.append(s.document_type.as_str());
            out.append(" — ");
            out.append(s.quick_summary.as_str());
            out.append(invalidated_suffix(s).as_str());
            out.append("\n");
            let ghost sub = related@.subrange(0, i + 1);
            assert(sub.drop_last() =~= related@.subrange(0, i as int));
            i = i + 1;
            assert(out@ =~= head + related_lines(related@.subrange(0, i as int)));
        }
        assert(related@.subrange(0, related@.len() as int) =~= related@);
    }
    assert(out@ =~= old(out)@ + related_text(related@));
}

pub open spec fn reason_line(reason: Option<String>) -> Seq<char> {
    match reason {
        Some(r) => "- **Invalidation reason:** "@ + r@ + "\n"@,
        None => Seq::empty(),
    }
}

pub open spec fn nested_reason_line(reason: Option<String>) -> Seq<char> {
    match reason {
        Some(r) => "  - **Invalidation reason:** "@ + r@ + "\n"@,
        None => Seq::empty(),
    }
}

pub open spec fn document_header_text(doc: Document) -> Seq<char> {
    "# Memory Document "@ + doc.id@ + "\n\n"@ + "- **Type:** "@ + stored_name(doc.document_type)
        + "\n"@ + "- **Created:** `"@ + doc.created_at@ + "`\n"@ + "- **Invalidated:** `"@
        + bool_text(doc.invalidated) + "`\n"@ + reason_line(doc.invalidation_reason)
        + "- **Summary:** "@ + doc.quick_summary@ + "\n"@ + "- **Path:** `"@ + doc.document_path@
        + "`\n"@
}

fn print_document_header(out: &mut String, doc: &Document)
    ensures
        final(out)@ == old(out)@ + document_header_text(*doc),
{
    out.append("# Memory Document ");
    out.append(doc.id.as_str());
    out.append("\n\n");
    out.append("- **Type:** ");
    out.append(doc.document_type.as_str());
    out.append("\n");
    out.append("- **Created:** `");
    out.append(doc.created_at.as_str());
    out.append("`\n");
    out.append("- **Invalidated:** `");
    push_bool(out, doc.invalidated);
    out.append("`\n");
    let ghost mid = out@;
    match &doc.invalidation_reason {
        Some(reason) => {
            out.append("- **Invalidation reason:** ");
            out.append(reason.as_str());
            out.append("\n");
        },
        None => {},
    }
    assert(out@ =~= mid + reason_line(doc.invalidation_reason));
    out.append("- **Summary:** ");
    out.append(doc.quick_summary.as_str());
    out.append("\n");
    out.append("- **Path:** `");
    out.append(doc.document_path.as_str());
    out.append("`\n");
    assert(out@ =~= old(out)@ + document_header_text(*doc));
}

pub open spec fn read_text(
    doc: Document,
    body: Seq<char>,
    files: Seq<String>,
    related: Seq<DocumentSummary>,
) -> Seq<char> {
    document_header_text(doc) + string_list_text("Related files"@, files) + "\n## Document\n\n"@
        + trim_end(body) + "\n"@ + related_text(related)
}

/// Appends the report of `read`: the metadata, the related files, the body without trailing
/// whitespace, and the related suggestions.
pub fn print_read_document(
    out: &mut String,
    doc: &Document,
    body: &str,
    files: &Vec<String>,
    related: &Vec<DocumentSummary>,
)
    ensures
        final(out)@ == old(out)@ + read_text(*doc, body@, files@, related@),
{
    print_document_header(out, doc);
    print_string_list(out, "Related files", files);
    out.append("\n## Document\n\n");
    let v = chars_of(body);
    let e = trim_end_bound(&v, 0);
    assert(v@.subrange(0, v@.len() as int) =~= v@);
    push_chars(out, &v, 0, e);
    out.append("\n");
    print_related(out, related);
    assert(out@ =~= old(out)@ + read_text(*doc, body@, files@, related@));
}

pub open spec fn backticked_list(values: Seq<String>) -> Seq<char>
    decreases values.len(),
{
    if values.len() == 0 {
        Seq::empty()
    } else if values.len() == 1 {
        "`"@ + values[0]@ + "`"@
    } else {
        backticked_list(values.drop_last()) + ", "@ + "`"@ + values.last()@ + "`"@
    }
}

pub open spec fn summary_header_text(s: DocumentSummary) -> Seq<char> {
    "- **ID:** `"@ + s.id@ + "`\n"@ + "  - **Type:** "@ + stored_name(s.document_type) + "\n"@
        + "  - **Created:** `"@ + s.created_at@ + "`\n"@ + "  - **Invalidated:** `"@ + bool_text(
        s.invalidated,
    ) + "`\n"@ + nested_reason_line(s.invalidation_reason) + "  - **Summary:** "@
        + s.quick_summary@ + "\n"@
}

pub open spec fn summary_files_text(s: DocumentSummary, include_files: bool) -> Seq<char> {
    if include_files {
        if s.related_files@.len() == 0 {
            "  - **Related files:** none\n"@
        } else {
            "  - **Related files:** "@ + backticked_list(s.related_files@) + "\n"@
        }
    } else {
        Seq::empty()
    }
}

pub open spec fn summary_text(s: DocumentSummary, include_files: bool) -> Seq<char> {
    summary_header_text(s) + summary_files_text(s, include_files)
}

fn print_summary_header(out: &mut String, summary: &DocumentSummary)
    ensures
        final(out)@ == old(out)@ + summary_header_text(*summary),
{
    out.append("- **ID:** `");
    out.append(summary.id.as_str());
    out.append("`\n");
    out.append("  - **Type:** ");
    out.append(summary.document_type.as_str());
    out.append("\n");
    out.append("  - **Created:** `");
    out.append(summary.created_at.as_str());
    out.append("`\n");
    out.append("  - **Invalidated:** `");
    push_bool(out, summary.invalidated);
    out.append("`\n");
    let ghost mid = out@;
    match &summary.invalidation_reason {
        Some(reason) => {
            out.append("  - **Invalidation reason:** ");
            out.append(reason.as_str());
            out.append("\n");
        },
        None => {},
    }
    assert(out@ =~= mid + nested_reason_line(summary.invalidation_reason));
    out.append("  - **Summary:** ");
    out.append(summary.quick_summary.as_str());
    out.append("\n");
    assert(out@ =~= old(out)@ + summary_header_text(*summary));
}

fn print_summary(out: &mut String, summary: &DocumentSummary, include_files: bool)
    ensures
        final(out)@ == old(out)@ + summary_text(*summary, include_files),
{
    print_summary_header(out, summary);
    let ghost head = out@;
    if include_files {
        let files = &summary.related_files;
        if files.len() == 0 {
            out.append("  - **Related files:** none\n");
        } else {
            out.append("  - **Related files:** ");
            let ghost start = out@;
            let mut i: usize = 0;
            while i < files.len()
                invariant
                    i <= files@.len(),
                    out@ == start + backticked_list(files@.subrange(0, i as int)),
                decreases files.len() - i,
            {
                if i > 0 {
                    out.append(", ");
                }
                out.append("`");
                out.append(files[i].as_str());
                out.append("`");
                let ghost sub = files@.subrange(0, i + 1);
                assert(sub.drop_last() =~= files@.subrange(0, i as int));
                i = i + 1;
                assert(out@ =~= start + backticked_list(files@.subrange(0, i as int)));
            }
            assert(files@.subrange(0, files@.len() as int) =~= files@);
            out.append("\n");
        }
    }
    assert(out@ =~= head + summary_files_text(*summary, include_files));
    assert(out@ =~= old(out)@ + summary_text(*summary, include_files));
}

/// The document bodies that a query shows under its direct matches, and how many characters
/// of each it shows.
#[derive(Clone, Copy)]
pub struct BodyPreview<'a> {
    pub bodies: &'a Vec<String>,
    pub limit: usize,
}

/// A body as a query shows it: without trailing whitespace, cut to `limit` characters with a
/// note that says how to read the rest.
pub open spec fn preview_text(body: Seq<char>, limit: usize, id: Seq<char>) -> Seq<char> {
    let t = trim_end(body);
    if t.len() > limit {
        t.subrange(0, limit as int) + "\n"@ + "\n... (truncated to "@ + grouped_decimal(
            limit as nat,
        ) + " characters. Use `memorybank read "@ + id
            + "` to read the full document.)\n"@
    } else {
        t + "\n"@
    }
}

pub open spec fn direct_entry(
    s: DocumentSummary,
    bodies: Seq<String>,
    limit: usize,
    show: bool,
    k: int,
) -> Seq<char> {
    summary_text(s, true) + if show && k < bodies.len() {
        "\n---\n\n"@ + preview_text(bodies[k]@, limit, s.id@) + "\n"@
    } else {
        Seq::empty()
    }
}

pub open spec fn direct_entries(
    direct: Seq<DocumentSummary>,
    bodies: Seq<String>,
    limit: usize,
    show: bool,
    n: int,
) -> Seq<char>
    decreases n,
{
    if n <= 0 {
        Seq::empty()
    } else {
        direct_entries(direct, bodies, limit, show, n - 1) + direct_entry(
            direct[n - 1],
            bodies,
            limit,
            show,
            n - 1,
        )
    }
}

pub open spec fn query_results_text(
    title: Seq<char>,
    direct: Seq<DocumentSummary>,
    related: Seq<DocumentSummary>,
    bodies: Seq<String>,
    limit: usize,
    show: bool,
) -> Seq<char> {
    "# Query Results: "@ + title + "\n\n"@ + "## Direct Matches\n\n"@ + if direct.len() == 0 {
        "No direct matches.\n"@
    } else {
        direct_entries(direct, bodies, limit, show, direct.len() as int)
    } + related_text(related) + "\n---\n\n"@
        + "Use `memorybank read <id>` to read a document's full content.\n"@
}

fn print_preview(out: &mut String, body: &str, limit: usize, id: &str)
    ensures
        final(out)@ == old(out)@ + preview_text(body@, limit, id@),
{
    let v = chars_of(body);
    let e = trim_end_bound(&v, 0);
    assert(v@.subrange(0, v@.len() as int) =~= v@);
    if e > limit {
        push_chars(out, &v, 0, limit);
        out.append("\n");
        out.append("\n... (truncated to ");
        push_grouped_decimal(out, limit);
        out.append(" characters. Use `memorybank read ");
        out.append(id);
        out.append("` to read the full document.)\n");
        assert(v@.subrange(0, limit as int) =~= trim_end(body@).subrange(0, limit as int));
    } else {
        push_chars(out, &v, 0, e);
        out.append("\n");
    }
    assert(out@ =~= old(out)@ + preview_text(body@, limit, id@));
}

fn print_direct_entry(
    out: &mut String,
    s: &DocumentSummary,
    preview: Option<BodyPreview>,
    k: usize,
)
    ensures
        final(out)@ == old(out)@ + match preview {
            Some(p) => direct_entry(*s, p.bodies@, p.limit, true, k as int),
            None => direct_entry(*s, Seq::<String>::empty(), 0, false, k as int),
        },
{
    print_summary(out, s, true);
    match preview {
        Some(p) => {
            if k < p.bodies.len() {
                out.append("\n---\n\n");
                print_preview(out, p.bodies[k].as_str(), p.limit, s.id.as_str());
                out.append("\n");
            }
        },
        None => {},
    }
    assert(out@ =~= old(out)@ + match preview {
        Some(p) => direct_entry(*s, p.bodies@, p.limit, true, k as int),
        None => direct_entry(*s, Seq::<String>::empty(), 0, false, k as int),
    });
}

/// Appends the results of a query: the direct matches (with body previews when `preview` is
/// given), the related suggestions, and a hint on how to read a whole document.
#[verifier::rlimit(40)]
pub fn print_query_results(
    out: &mut String,
    title: &str,
    direct: &Vec<DocumentSummary>,
    related: &Vec<DocumentSummary>,
    preview: Option<BodyPreview>,
)
    ensures
        final(out)@ == old(out)@ + match preview {
            Some(p) => query_results_text(title@, direct@, related@, p.bodies@, p.limit, true),
            None => query_results_text(
                title@,
                direct@,
                related@,
                Seq::<String>::empty(),
                0,
                false,
            ),
        },
{
    let ghost bodies: Seq<String> = match preview {
        Some(p) => p.bodies@,
        None => Seq::<String>::empty(),
    };
    let ghost limit: usize = match preview {
        Some(p) => p.limit,
        None => 0,
    };
    let ghost show: bool = preview is Some;
    out.append("# Query Results: ");
    out.append(title);
    out.append("\n\n");
    out.append("## Direct Matches\n\n");
    if direct.len() == 0 {
        out.append("No direct matches.\n");
    } else {
        let ghost head = out@;
        let mut i: usize = 0;
        while i < direct.len()
            invariant
                i <= direct@.len(),
                out@ == head + direct_entries(direct@, bodies, limit, show, i as int),
                show == preview is Some,
                preview matches Some(p) ==> p.bodies@ == bodies && p.limit == limit,
            decreases direct.len() - i,
        {
            print_direct_entry(out, &direct[i], preview, i);
            i = i + 1;
            assert(out@ =~= head + direct_entries(direct@, bodies, limit, show, i as int));
        }
    }
    print_related(out, related);
    out.append("\n---\n\n");
    out.append("Use `memorybank read <id>` to read a document's full content.\n");
    assert(out@ =~= old(out)@ + query_results_text(title@, direct@, related@, bodies, limit, show));
}

/// A body within the limit is shown whole, without trailing whitespace.
pub proof fn law_short_bodies_are_not_truncated(body: Seq<char>, limit: usize, id: Seq<char>)
    requires
        trim_end(body).len() <= limit,
    ensures
        preview_text(body, limit, id) == trim_end(body) + "\n"@,
{
}

/// A body over the limit shows exactly its first `limit` characters, followed by the
/// truncation note.
pub proof fn law_long_bodies_are_cut_at_the_limit(body: Seq<char>, limit: usize, id: Seq<char>)
    requires
        trim_end(body).len() > limit,
    ensures
        preview_text(body, limit, id).subrange(0, limit as int) == trim_end(body).subrange(
            0,
            limit as int,
        ),
        preview_text(body, limit, id).subrange(limit as int, limit + 20) == "\n"@
            + "\n... (truncated to "@,
{
    let t = trim_end(body);
    let p = preview_text(body, limit, id);
    let head = t.subrange(0, limit as int);
    reveal_strlit("\n");
    reveal_strlit("\n... (truncated to ");
    let note = "\n"@ + "\n... (truncated to "@;
    let rest = grouped_decimal(limit as nat) + " characters. Use `memorybank read "@ + id
        + "` to read the full document.)\n"@;
    assert(p =~= head + note + rest);
    assert(note.len() == 20);
    assert(p.subrange(0, limit as int) =~= head);
    assert(p.subrange(limit as int, limit + 20) =~= note);
}

/// The line that lists one value.
pub open spec fn bullet(v: Seq<char>) -> Seq<char> {
    "- `"@ + v + "`\n"@
}

/// The lines of a joined list are the lines of each part, one after the other; a list of one
/// value gives that value's line.
pub proof fn law_bullet_lines_follow_the_list(a: Seq<String>, b: Seq<String>, v: String)
    ensures
        bullet_lines(a + b) == bullet_lines(a) + bullet_lines(b),
        bullet_lines(seq![v]) == bullet(v@),
    decreases b.len(),
{
    if b.len() == 0 {
        assert(a + b =~= a);
        assert(bullet_lines(a) + bullet_lines(b) =~= bullet_lines(a));
    } else {
        law_bullet_lines_follow_the_list(a, b.drop_last(), v);
        assert((a + b).drop_last() =~= a + b.drop_last());
        assert((a + b).last() == b.last());
        assert(bullet_lines(a + b) =~= bullet_lines(a) + bullet_lines(b));
    }
    assert(seq![v].drop_last() =~= Seq::<String>::empty());
    assert(seq![v].last() == v);
    assert(bullet_lines(Seq::<String>::empty()) == Seq::<char>::empty());
    assert(bullet_lines(seq![v]) == bullet_lines(Seq::<String>::empty()) + "- `"@ + v@ + "`\n"@);
    assert(bullet_lines(seq![v]) =~= bullet(v@));
}

/// A titled list shows a line for every one of its values.
pub proof fn law_each_value_is_listed(label: Seq<char>, values: Seq<String>)
    ensures
        forall|k: int| 0 <= k < values.len() ==> is_infix(bullet((#[trigger] values[k])@), string_list_text(label, values)),
{
    assert forall|k: int| 0 <= k < values.len() implies is_infix(bullet((#[trigger] values[k])@), string_list_text(label, values)) by {
        let pre = values.subrange(0, k);
        let post = values.subrange(k + 1, values.len() as int);
        assert(values =~= pre + seq![values[k]] + post);
        law_bullet_lines_follow_the_list(pre + seq![values[k]], post, values[k]);
        law_bullet_lines_follow_the_list(pre, seq![values[k]], values[k]);
        let lines = bullet_lines(values);
        assert(lines == bullet_lines(pre) + bullet(values[k]@) + bullet_lines(post));
        lemma_infix_at(bullet_lines(pre), bullet(values[k]@), bullet_lines(post));
        lemma_infix_widen(bullet(values[k]@), "\n## "@ + label + "\n\n"@, lines, Seq::<char>::empty());
        assert("\n## "@ + label + "\n\n"@ + lines + Seq::<char>::empty() =~= string_list_text(label, values));
    }
}

/// The report of `read` lists every related file.
pub proof fn law_read_lists_each_file(doc: Document, body: Seq<char>, files: Seq<String>, related: Seq<DocumentSummary>)
    ensures
        forall|k: int| 0 <= k < files.len() ==> is_infix(bullet((#[trigger] files[k])@), read_text(doc, body, files, related)),
{
    law_each_value_is_listed("Related files"@, files);
    let list = string_list_text("Related files"@, files);
    let post = "\n## Document\n\n"@ + trim_end(body) + "\n"@ + related_text(related);
    assert(document_header_text(doc) + list + post =~= read_text(doc, body, files, related));
    assert forall|k: int| 0 <= k < files.len() implies is_infix(bullet((#[trigger] files[k])@), read_text(doc, body, files, related)) by {
        lemma_infix_widen(bullet(files[k]@), document_header_text(doc), list, post);
    }
}

/// The report of `add` lists every related file and every related document.
pub proof fn law_add_report_lists_each_file_and_document(
    doc: Document,
    files: Seq<String>,
    docs: Seq<String>,
    sql_patch: Seq<char>,
)
    ensures
        forall|k: int| 0 <= k < files.len() ==> is_infix(bullet((#[trigger] files[k])@), add_success_text(doc, files, docs, sql_patch)),
        forall|k: int| 0 <= k < docs.len() ==> is_infix(bullet((#[trigger] docs[k])@), add_success_text(doc, files, docs, sql_patch)),
{
    law_each_value_is_listed("Related files"@, files);
    law_each_value_is_listed("Related documents"@, docs);
    let head = added_header_text(doc, sql_patch);
    let fl = string_list_text("Related files"@, files);
    let dl = string_list_text("Related documents"@, docs);
    assert(head + fl + dl =~= add_success_text(doc, files, docs, sql_patch));
    assert forall|k: int| 0 <= k < files.len() implies is_infix(bullet((#[trigger] files[k])@), add_success_text(doc, files, docs, sql_patch)) by {
        lemma_infix_widen(bullet(files[k]@), head, fl, dl);
    }
    assert forall|k: int| 0 <= k < docs.len() implies is_infix(bullet((#[trigger] docs[k])@), add_success_text(doc, files, docs, sql_patch)) by {
        lemma_infix_widen(bullet(docs[k]@), head + fl, dl, Seq::<char>::empty());
        assert(head + fl + dl + Seq::<char>::empty() =~= add_success_text(doc, files, docs, sql_patch));
    }
}

/// The line of one related suggestion: its ID, type and summary, and a mark when invalidated.
pub open spec fn suggestion_line(s: DocumentSummary) -> Seq<char> {
    "- **ID:** `"@ + s.id@ + "` — "@ + stored_name(s.document_type) + " — "@ + s.quick_summary@
        + invalidated_suffix_text(s) + "\n"@
}

proof fn lemma_suggestion_in_lines(related: Seq<DocumentSummary>, k: int)
    requires
        0 <= k < related.len(),
    ensures
        is_infix(suggestion_line(related[k]), related_lines(related)),
    decreases related.len(),
{
    let last = related.last();
    let init = related_lines(related.drop_last());
    assert(related_lines(related) =~= init + suggestion_line(last));
    if k == related.len() - 1 {
        lemma_infix_at(init, suggestion_line(last), Seq::<char>::empty());
        assert(init + suggestion_line(last) + Seq::<char>::empty() =~= related_lines(related));
    } else {
        assert(related.drop_last()[k] == related[k]);
        lemma_suggestion_in_lines(related.drop_last(), k);
        lemma_infix_widen(suggestion_line(related[k]), Seq::<char>::empty(), init, suggestion_line(last));
        assert(Seq::<char>::empty() + init + suggestion_line(last) =~= related_lines(related));
    }
}

/// The suggestions section shows a line for every related document.
pub proof fn law_each_suggestion_is_listed(related: Seq<DocumentSummary>)
    ensures
        forall|k: int| 0 <= k < related.len() ==> is_infix(suggestion_line(#[trigger] related[k]), related_text(related)),
{
    assert forall|k: int| 0 <= k < related.len() implies is_infix(suggestion_line(#[trigger] related[k]), related_text(related)) by {
        lemma_suggestion_in_lines(related, k);
        lemma_infix_widen(suggestion_line(related[k]), "\n## Related Suggestions\n\n"@, related_lines(related), Seq::<char>::empty());
        assert("\n## Related Suggestions\n\n"@ + related_lines(related) + Seq::<char>::empty() =~= related_text(related));
    }
}

proof fn lemma_entry_in_entries(
    direct: Seq<DocumentSummary>,
    bodies: Seq<String>,
    limit: usize,
    show: bool,
    k: int,
    n: int,
)
    requires
        0 <= k < n,
    ensures
        is_infix(direct_entry(direct[k], bodies, limit, show, k), direct_entries(direct, bodies, limit, show, n)),
    decreases n,
{
    let prev = direct_entries(direct, bodies, limit, show, n - 1);
    let last = direct_entry(direct[n - 1], bodies, limit, show, n - 1);
    assert(direct_entries(direct, bodies, limit, show, n) == prev + last);
    if k == n - 1 {
        lemma_infix_at(prev, last, Seq::<char>::empty());
        assert(prev + last + Seq::<char>::empty() =~= prev + last);
    } else {
        lemma_entry_in_entries(direct, bodies, limit, show, k, n - 1);
        lemma_infix_widen(direct_entry(direct[k], bodies, limit, show, k), Seq::<char>::empty(), prev, last);
        assert(Seq::<char>::empty() + prev + last =~= prev + last);
    }
}

/// In query results with previews, each direct match is followed by the preview of its own
/// body: the k-th summary, the separator, and the k-th body's preview stand together.
pub proof fn law_each_match_shows_its_own_body(
    title: Seq<char>,
    direct: Seq<DocumentSummary>,
    related: Seq<DocumentSummary>,
    bodies: Seq<String>,
    limit: usize,
)
    ensures
        forall|k: int|
            0 <= k < direct.len() && k < bodies.len() ==> is_infix(
                summary_text(#[trigger] direct[k], true) + "\n---\n\n"@ + preview_text(
                    bodies[k]@,
                    limit,
                    direct[k].id@,
                ),
                query_results_text(title, direct, related, bodies, limit, true),
            ),
{
    assert forall|k: int| 0 <= k < direct.len() && k < bodies.len() implies is_infix(
        summary_text(#[trigger] direct[k], true) + "\n---\n\n"@ + preview_text(bodies[k]@, limit, direct[k].id@),
        query_results_text(title, direct, related, bodies, limit, true),
    ) by {
        let needle = summary_text(direct[k], true) + "\n---\n\n"@ + preview_text(bodies[k]@, limit, direct[k].id@);
        let entry = direct_entry(direct[k], bodies, limit, true, k);
        assert(entry == needle + "\n"@);
        lemma_infix_at(Seq::<char>::empty(), needle, "\n"@);
        assert(Seq::<char>::empty() + needle + "\n"@ =~= entry);
        let n = direct.len() as int;
        let entries = direct_entries(direct, bodies, limit, true, n);
        lemma_entry_in_entries(direct, bodies, limit, true, k, n);
        lemma_infix_trans(needle, entry, entries);
        let pre = "# Query Results: "@ + title + "\n\n"@ + "## Direct Matches\n\n"@;
        let post = related_text(related) + "\n---\n\n"@
            + "Use `memorybank read <id>` to read a document's full content.\n"@;
        lemma_infix_widen(needle, pre, entries, post);
        assert(pre + entries + post =~= query_results_text(title, direct, related, bodies, limit, true));
    }
}

proof fn lemma_value_in_backticked_list(values: Seq<String>, k: int)
    requires
        0 <= k < values.len(),
    ensures
        is_infix("`"@ + values[k]@ + "`"@, backticked_list(values)),
    decreases values.len(),
{
    let needle = "`"@ + values[k]@ + "`"@;
    if values.len() == 1 {
        lemma_infix_at(Seq::<char>::empty(), needle, Seq::<char>::empty());
        assert(Seq::<char>::empty() + needle + Seq::<char>::empty() =~= backticked_list(values));
    } else {
        let init = backticked_list(values.drop_last());
        let last = "`"@ + values.last()@ + "`"@;
        assert(backticked_list(values) == init + ", "@ + last);
        if k == values.len() - 1 {
            assert(values.last() == values[k]);
            lemma_infix_at(init + ", "@, needle, Seq::<char>::empty());
            assert(init + ", "@ + needle + Seq::<char>::empty() =~= backticked_list(values));
        } else {
            assert(values.drop_last()[k] == values[k]);
            lemma_value_in_backticked_list(values.drop_last(), k);
            lemma_infix_widen(needle, Seq::<char>::empty(), init, ", "@ + last);
            assert(Seq::<char>::empty() + init + (", "@ + last) =~= backticked_list(values));
        }
    }
}

/// A listed summary with its files names every related file of the document.
pub proof fn law_summary_names_each_file(s: DocumentSummary)
    ensures
        forall|k: int| 0 <= k < s.related_files@.len() ==> is_infix(
            "`"@ + (#[trigger] s.related_files@[k])@ + "`"@,
            summary_text(s, true),
        ),
{
    let files = s.related_files@;
    assert forall|k: int| 0 <= k < files.len() implies is_infix(
        "`"@ + (#[trigger] files[k])@ + "`"@,
        summary_text(s, true),
    ) by {
        lemma_value_in_backticked_list(files, k);
        let list = backticked_list(files);
        lemma_infix_widen("`"@ + files[k]@ + "`"@, summary_header_text(s) + "  - **Related files:** "@, list, "\n"@);
        assert(summary_header_text(s) + "  - **Related files:** "@ + list + "\n"@ =~= summary_text(s, true));
    }
}

} // verus!
