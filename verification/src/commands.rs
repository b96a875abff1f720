use uuid::Uuid;
use vstd::prelude::*;

use crate::error::{validation, CliError};
use crate::models::{AddDocumentInput, Document, DocumentSummary};
use crate::paths::{join, join_path, normalize_related_file, normalized};
use crate::text::{all_digits, chars_of, decimal, is_lower_hex, is_year_text, push_decimal, trim, trim_bounds};

verus! {

/// The longest document body that `add` accepts, in characters.
pub const MAX_DOCUMENT_CHARS: usize = 10_000;

/// The most files that `query-files` accepts.
pub const MAX_QUERY_FILES: usize = 3;

fn is_blank(s: &String) -> (r: bool)
    ensures
        r == (trim(s@).len() == 0),
{
    let v = chars_of(s.as_str());
    let (b, e) = trim_bounds(&v);
    b == e
}

pub open spec fn empty_document_message() -> Seq<char> {
    "Field 'document' must not be empty"@
}

pub open spec fn too_long_message(n: nat) -> Seq<char> {
    "Field 'document' must not exceed 10,000 characters (got "@ + decimal(n) + ")"@
}

pub open spec fn empty_summary_message() -> Seq<char> {
    "Field 'summary' must not be empty"@
}

pub open spec fn empty_related_id_message() -> Seq<char> {
    "Field 'related_documents' must not contain empty IDs"@
}

pub open spec fn missing_related_message(id: Seq<char>) -> Seq<char> {
    "Related document '"@ + id + "' does not exist"@
}

/// The first complaint about the related document IDs from position `k` on, given whether
/// each ID names an existing document.
pub open spec fn related_error(ids: Seq<String>, exists: Seq<bool>, k: int) -> Option<Seq<char>>
    decreases ids.len() - k,
{
    if k < 0 || k >= ids.len() {
        None
    } else if trim(ids[k]@).len() == 0 {
        Some(empty_related_id_message())
    } else if !exists[k] {
        Some(missing_related_message(ids[k]@))
    } else {
        related_error(ids, exists, k + 1)
    }
}

/// The first complaint about an `add` input, if any, in the order the checks run.
pub open spec fn input_error(input: AddDocumentInput, exists: Seq<bool>) -> Option<Seq<char>> {
    if trim(input.document@).len() == 0 {
        Some(empty_document_message())
    } else if input.document@.len() > MAX_DOCUMENT_CHARS {
        Some(too_long_message(input.document@.len()))
    } else if trim(input.summary@).len() == 0 {
        Some(empty_summary_message())
    } else {
        related_error(input.related_documents@, exists, 0)
    }
}

proof fn lemma_related_error_none(ids: Seq<String>, present: Seq<bool>, k: int)
    requires
        0 <= k,
        present.len() == ids.len(),
        related_error(ids, present, k) is None,
    ensures
        forall|j: int| #![trigger present[j]] k <= j < ids.len() ==> present[j] && trim(ids[j]@).len() > 0,
    decreases ids.len() - k,
{
    if k < ids.len() {
        lemma_related_error_none(ids, present, k + 1);
    }
}

proof fn lemma_related_error_first_missing(ids: Seq<String>, present: Seq<bool>, k: int, m: int)
    requires
        0 <= k <= m < ids.len(),
        present.len() == ids.len(),
        forall|j: int| #![trigger present[j]] k <= j < m ==> present[j] && trim(ids[j]@).len() > 0,
        trim(ids[m]@).len() > 0,
        !present[m],
    ensures
        related_error(ids, present, k) == Some(missing_related_message(ids[m]@)),
    decreases m - k,
{
    if k < m {
        assert(present[k] && trim(ids[k]@).len() > 0);
        lemma_related_error_first_missing(ids, present, k + 1, m);
    }
}

/// An accepted input has a body that is not blank and has at most 10,000 characters, a
/// summary that is not blank, and only related IDs that are not blank and all exist.
pub proof fn law_accepted_input_is_complete(input: AddDocumentInput, present: Seq<bool>)
    requires
        present.len() == input.related_documents@.len(),
        input_error(input, present) is None,
    ensures
        trim(input.document@).len() > 0,
        input.document@.len() <= 10_000,
        trim(input.summary@).len() > 0,
        forall|k: int| #![trigger present[k]] 0 <= k < present.len() ==> present[k] && trim(input.related_documents@[k]@).len() > 0,
{
    lemma_related_error_none(input.related_documents@, present, 0);
}

/// When the body and summary pass and the related IDs before position `m` are present and
/// exist, a present but missing document at `m` is the error, named by its ID, wherever it
/// stands in the list.
pub proof fn law_first_missing_document_is_reported(input: AddDocumentInput, present: Seq<bool>, m: int)
    requires
        present.len() == input.related_documents@.len(),
        0 <= m < present.len(),
        trim(input.document@).len() > 0,
        input.document@.len() <= 10_000,
        trim(input.summary@).len() > 0,
        forall|j: int| #![trigger present[j]] 0 <= j < m ==> present[j] && trim(input.related_documents@[j]@).len() > 0,
        trim(input.related_documents@[m]@).len() > 0,
        !present[m],
    ensures
        input_error(input, present) == Some(
            "Related document '"@ + input.related_documents@[m]@ + "' does not exist"@,
        ),
{
    let ids = input.related_documents@;
    assert forall|j: int| 0 <= j < m implies present[j] && trim(ids[j]@).len() > 0 by {
        assert(present[j]);
    }
    lemma_related_error_first_missing(ids, present, 0, m);
}

/// Checks an `add` input: a body that is not blank and has at most 10,000 characters, a
/// summary that is not blank, and related document IDs that are not blank and, as
/// `related_exist` reports for each in turn, name existing documents.
pub fn validate_input(input: &AddDocumentInput, related_exist: &Vec<bool>) -> (r: Result<
    (),
    CliError,
>)
    requires
        related_exist@.len() == input.related_documents@.len(),
    ensures
        r is Ok <==> input_error(*input, related_exist@) is None,
        r matches Err(e) ==> e matches CliError::Validation(m) && input_error(
            *input,
            related_exist@,
        ) == Some(m@),
        r is Ok ==> forall|k: int| #![trigger related_exist@[k]]
            0 <= k < related_exist@.len() ==> related_exist@[k] && trim(
                input.related_documents@[k]@,
            ).len() > 0,
{
    if is_blank(&input.document) {
        return Err(validation("Field 'document' must not be empty"));
    }
    let count = chars_of(input.document.as_str()).len();
    if count > MAX_DOCUMENT_CHARS {
        let mut m = String::from_str("Field 'document' must not exceed 10,000 characters (got ");
        push_decimal(&mut m, count);
        m.append(")");
        return Err(CliError::Validation(m));
    }
    if is_blank(&input.summary) {
        return Err(validation("Field 'summary' must not be empty"));
    }
    let ids = &input.related_documents;
    let mut i: usize = 0;
    while i < ids.len()
        invariant
            i <= ids@.len(),
            related_exist@.len() == ids@.len(),
            related_error(ids@, related_exist@, 0) == related_error(ids@, related_exist@, i as int),
            input_error(*input, related_exist@) == related_error(ids@, related_exist@, 0),
            ids == &input.related_documents,
        decreases ids.len() - i,
    {
        if is_blank(&ids[i]) {
            return Err(validation("Field 'related_documents' must not contain empty IDs"));
        }
        if !related_exist[i] {
            let mut m = String::from_str("Related document '");
            m.append(ids[i].as_str());
            m.append("' does not exist");
            return Err(CliError::Validation(m));
        }
        i = i + 1;
    }
    proof {
        lemma_related_error_none(ids@, related_exist@, 0);
    }
    Ok(())
}

/// Where the body of the document with this ID is stored, relative to `.memory`.
pub open spec fn document_path_for(id: Seq<char>) -> Seq<char> {
    join_path("documents"@, id + ".md"@)
}

/// The related files of an `add` all normalize.
pub open spec fn all_normalize(root: Seq<char>, files: Seq<String>) -> bool {
    forall|k: int| 0 <= k < files.len() ==> (#[trigger] normalized(root, files[k]@)) is Some
}

/// The metadata of a new document with the given ID and creation time, and its related files
/// in stored form. Fails, as the first related file that normalizes to nothing does, when one
/// does.
pub fn prepare_document(root: &str, input: &AddDocumentInput, id: String, created_at: String) -> (r:
    Result<(Document, Vec<String>), CliError>)
    ensures
        r is Ok <==> all_normalize(root@, input.related_files@),
        r matches Err(e) ==> e matches CliError::Validation(_),
        r matches Ok((doc, files)) ==> {
            &&& doc.id@ == id@
            &&& doc.document_path@ == document_path_for(id@)
            &&& doc.created_at@ == created_at@
            &&& !doc.invalidated
            &&& doc.invalidation_reason is None
            &&& doc.quick_summary@ == input.summary@
            &&& doc.document_type == input.document_type
            &&& files@.len() == input.related_files@.len()
            &&& forall|k: int|
                0 <= k < files@.len() ==> normalized(root@, input.related_files@[k]@) == Some(
                    (#[trigger] files@[k])@,
                )
        },
{
    let mut file_name = String::from_str(id.as_str());
    file_name.append(".md");
    let document_path = join("documents", file_name.as_str());
    let mut files: Vec<String> = Vec::new();
    let mut i: usize = 0;
    while i < input.related_files.len()
        invariant
            i <= input.related_files@.len(),
            files@.len() == i,
            forall|k: int|
                0 <= k < i ==> normalized(root@, input.related_files@[k]@) == Some(
                    (#[trigger] files@[k])@,
                ),
        decreases input.related_files.len() - i,
    {
        match normalize_related_file(root, input.related_files[i].as_str()) {
            Ok(p) => {
                files.push(p);
            },
            Err(e) => {
                assert(!all_normalize(root@, input.related_files@));
                return Err(e);
            },
        }
        i = i + 1;
    }
    let doc = Document {
        id,
        document_path,
        created_at,
        invalidated: false,
        invalidation_reason: None,
        quick_summary: String::from_str(input.summary.as_str()),
        document_type: input.document_type,
    };
    assert forall|k: int| 0 <= k < input.related_files@.len() implies (#[trigger] normalized(
        root@,
        input.related_files@[k]@,
    )) is Some by {
        assert(normalized(root@, input.related_files@[k]@) == Some(files@[k]@));
    }
    Ok((doc, files))
}

/// A hyphenated lowercase version-4 UUID: `xxxxxxxx-xxxx-4xxx-xxxx-xxxxxxxxxxxx`.
pub open spec fn is_uuid_v4_text(s: Seq<char>) -> bool {
    &&& s.len() == 36
    &&& s[8] == '-' && s[13] == '-' && s[18] == '-' && s[23] == '-'
    &&& s[14] == '4'
    &&& forall|k: int|
        0 <= k < 36 && k != 8 && k != 13 && k != 18 && k != 23 ==> is_lower_hex(#[trigger] s[k])
}

/// Calls `Uuid::new_v4` and formats the result with `to_string`. The value is random; the
/// contract claims only its shape, which the uuid crate's hyphenated lowercase format and the
/// version-4 nibble fix.
#[verifier::external_body]
fn new_document_id() -> (r: String)
    ensures
        is_uuid_v4_text(r@),
{
    Uuid::new_v4().to_string()
}

/// An RFC 3339 UTC time as chrono's `to_rfc3339` writes it, with `f` characters of fraction
/// (none, or a dot and 3, 6 or 9 digits): `YYYY-MM-DDTHH:MM:SS`, the fraction, `+00:00`.
pub open spec fn rfc3339_utc_with_fraction(t: Seq<char>, f: int) -> bool {
    let n = t.len() as int;
    let e = n - 6 - f;
    &&& e >= 19
    &&& t.subrange(n - 6, n) == "+00:00"@
    &&& (f > 0 ==> t[e] == '.' && all_digits(t.subrange(e + 1, n - 6)))
    &&& all_digits(t.subrange(e - 8, e - 6))
    &&& t[e - 6] == ':'
    &&& all_digits(t.subrange(e - 5, e - 3))
    &&& t[e - 3] == ':'
    &&& all_digits(t.subrange(e - 2, e))
    &&& t[e - 9] == 'T'
    &&& t[e - 15] == '-'
    &&& all_digits(t.subrange(e - 14, e - 12))
    &&& t[e - 12] == '-'
    &&& all_digits(t.subrange(e - 11, e - 9))
    &&& is_year_text(t.subrange(0, e - 15))
}

/// The shape of every current time that `to_rfc3339` writes for UTC.
pub open spec fn is_rfc3339_utc(t: Seq<char>) -> bool {
    exists|f: int| (f == 0 || f == 4 || f == 7 || f == 10) && #[trigger] rfc3339_utc_with_fraction(t, f)
}

/// Calls `chrono::Utc::now` and formats it with `to_rfc3339`. The value depends on the
/// clock; the contract claims the shape that chrono's `write_rfc3339` gives every value:
/// the date, `T`, the time with no fraction or 3, 6 or 9 fraction digits, and `+00:00`
/// (years from 1970, the clock's epoch, up to 9999 take four digits, later ones a `+`).
/// `Utc::now` panics when the system clock reads a time before 1970; no argument can rule
/// that out, so it is left to the environment.
#[verifier::external_body]
fn now_rfc3339() -> (r: String)
    ensures
        is_rfc3339_utc(r@),
{
    chrono::Utc::now().to_rfc3339()
}

/// The metadata of a new document for an `add` input: a fresh UUID, the current time, the
/// stored path `documents/<id>.md`, and the related files in stored form.
pub fn new_document(root: &str, input: &AddDocumentInput) -> (r: Result<
    (Document, Vec<String>),
    CliError,
>)
    ensures
        r is Ok <==> all_normalize(root@, input.related_files@),
        r matches Err(e) ==> e matches CliError::Validation(_),
        r matches Ok((doc, files)) ==> {
            &&& is_uuid_v4_text(doc.id@)
            &&& is_rfc3339_utc(doc.created_at@)
            &&& doc.document_path@ == document_path_for(doc.id@)
            &&& !doc.invalidated
            &&& doc.invalidation_reason is None
            &&& doc.quick_summary@ == input.summary@
            &&& doc.document_type == input.document_type
            &&& files@.len() == input.related_files@.len()
            &&& forall|k: int|
                0 <= k < files@.len() ==> normalized(root@, input.related_files@[k]@) == Some(
                    (#[trigger] files@[k])@,
                )
        },
{
    let id = new_document_id();
    let created_at = now_rfc3339();
    prepare_document(root, input, id, created_at)
}

pub open spec fn too_many_files_message(n: nat) -> Seq<char> {
    "query-files accepts at most 3 files, got "@ + decimal(n)
}

/// The files of a `query-files` request in stored form: at most three, each normalized.
pub fn prepare_query_files(root: &str, files: &Vec<String>) -> (r: Result<Vec<String>, CliError>)
    ensures
        r is Ok <==> files@.len() <= MAX_QUERY_FILES && all_normalize(root@, files@),
        files@.len() > MAX_QUERY_FILES ==> (r matches Err(CliError::Validation(m)) && m@
            == too_many_files_message(files@.len())),
        r matches Err(e) ==> e matches CliError::Validation(_),
        r matches Ok(v) ==> v@.len() == files@.len() && forall|k: int|
            0 <= k < v@.len() ==> normalized(root@, files@[k]@) == Some((#[trigger] v@[k])@),
{
    if files.len() > MAX_QUERY_FILES {
        let mut m = String::from_str("query-files accepts at most 3 files, got ");
        push_decimal(&mut m, files.len());
        return Err(CliError::Validation(m));
    }
    let mut out: Vec<String> = Vec::new();
    let mut i: usize = 0;
    while i < files.len()
        invariant
            i <= files@.len(),
            files@.len() <= MAX_QUERY_FILES,
            out@.len() == i,
            forall|k: int|
                0 <= k < i ==> normalized(root@, files@[k]@) == Some((#[trigger] out@[k])@),
        decreases files.len() - i,
    {
        match normalize_related_file(root, files[i].as_str()) {
            Ok(p) => {
                out.push(p);
            },
            Err(e) => {
                assert(!all_normalize(root@, files@));
                return Err(e);
            },
        }
        i = i + 1;
    }
    assert forall|k: int| 0 <= k < files@.len() implies (#[trigger] normalized(
        root@,
        files@[k]@,
    )) is Some by {
        assert(normalized(root@, files@[k]@) == Some(out@[k]@));
    }
    Ok(out)
}

/// The length check of `add`: a non-blank body of at most 10,000 characters passes it (what
/// follows depends only on the summary and the related documents), and a longer one is
/// rejected with its character count.
pub proof fn law_document_length_limit(input: AddDocumentInput, exists: Seq<bool>)
    requires
        trim(input.document@).len() > 0,
    ensures
        input.document@.len() <= MAX_DOCUMENT_CHARS ==> input_error(input, exists) == if trim(
            input.summary@,
        ).len() == 0 {
            Some(empty_summary_message())
        } else {
            related_error(input.related_documents@, exists, 0)
        },
        input.document@.len() > MAX_DOCUMENT_CHARS ==> input_error(input, exists) == Some(
            too_long_message(input.document@.len()),
        ),
{
}

/// The trimmed text of a query, or none when nothing but whitespace was given (such a query
/// lists no matches).
pub fn text_query(term: &str) -> (r: Option<String>)
    ensures
        trim(term@).len() == 0 ==> r is None,
        trim(term@).len() > 0 ==> (r matches Some(q) && q@ == trim(term@)),
{
    let v = chars_of(term);
    let (b, e) = trim_bounds(&v);
    if b == e {
        None
    } else {
        Some(crate::text::string_of(&v, b, e))
    }
}

fn copy_strings(v: &Vec<String>) -> (r: Vec<String>)
    ensures
        r@ == v@,
{
    let mut out: Vec<String> = Vec::new();
    let mut i: usize = 0;
    while i < v.len()
        invariant
            i <= v@.len(),
            out@ == v@.subrange(0, i as int),
        decreases v.len() - i,
    {
        out.push(v[i].clone());
        i = i + 1;
        assert(out@ =~= v@.subrange(0, i as int));
    }
    assert(v@.subrange(0, v@.len() as int) =~= v@);
    out
}

/// Two summaries hold the same values, field by field.
pub open spec fn same_summary(a: DocumentSummary, b: DocumentSummary) -> bool {
    &&& a.id == b.id
    &&& a.created_at == b.created_at
    &&& a.invalidated == b.invalidated
    &&& a.invalidation_reason == b.invalidation_reason
    &&& a.quick_summary == b.quick_summary
    &&& a.document_type == b.document_type
    &&& a.related_files@ == b.related_files@
}

/// A copy of a summary, field by field.
pub fn copy_summary(s: &DocumentSummary) -> (r: DocumentSummary)
    ensures
        same_summary(r, *s),
{
    DocumentSummary {
        id: s.id.clone(),
        created_at: s.created_at.clone(),
        invalidated: s.invalidated,
        invalidation_reason: match &s.invalidation_reason {
            Some(reason) => Some(reason.clone()),
            None => None,
        },
        quick_summary: s.quick_summary.clone(),
        document_type: s.document_type,
        related_files: copy_strings(&s.related_files),
    }
}

/// The direct matches of a text query: the candidates at the positions `order` names, in that
/// order, with their bodies.
pub fn direct_matches(candidates: &Vec<DocumentSummary>, bodies: &Vec<String>, order: &Vec<usize>) -> (r: (
    Vec<DocumentSummary>,
    Vec<String>,
))
    requires
        candidates@.len() == bodies@.len(),
        forall|k: int| 0 <= k < order@.len() ==> #[trigger] order@[k] < candidates@.len(),
    ensures
        r.0@.len() == order@.len(),
        r.1@.len() == order@.len(),
        forall|k: int| 0 <= k < order@.len() ==> same_summary(#[trigger] r.0@[k], candidates@[order@[k] as int]),
        forall|k: int| 0 <= k < order@.len() ==> (#[trigger] r.1@[k]) == bodies@[order@[k] as int],
{
    let mut direct: Vec<DocumentSummary> = Vec::new();
    let mut texts: Vec<String> = Vec::new();
    let mut k: usize = 0;
    while k < order.len()
        invariant
            k <= order@.len(),
            candidates@.len() == bodies@.len(),
            forall|t: int| 0 <= t < order@.len() ==> #[trigger] order@[t] < candidates@.len(),
            direct@.len() == k,
            texts@.len() == k,
            forall|t: int| 0 <= t < k ==> same_summary(#[trigger] direct@[t], candidates@[order@[t] as int]),
            forall|t: int| 0 <= t < k ==> (#[trigger] texts@[t]) == bodies@[order@[t] as int],
        decreases order.len() - k,
    {
        let i = order[k];
        direct.push(copy_summary(&candidates[i]));
        texts.push(bodies[i].clone());
        k = k + 1;
    }
    (direct, texts)
}

} // verus!
