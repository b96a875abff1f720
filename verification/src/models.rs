use vstd::prelude::*;

use crate::text::str_eq;

verus! {

/// The three kinds of memory document.
#[derive(Clone, Copy, Debug, PartialEq, Eq, Structural)]
pub enum DocumentType {
    Commit,
    Plan,
    Research,
}

/// The stored name of a document type.
pub open spec fn stored_name(t: DocumentType) -> Seq<char> {
    match t {
        DocumentType::Commit => "COMMIT"@,
        DocumentType::Plan => "PLAN"@,
        DocumentType::Research => "RESEARCH"@,
    }
}

/// The document type stored under a name, if any.
pub open spec fn type_of_stored_name(s: Seq<char>) -> Option<DocumentType> {
    if s == "COMMIT"@ {
        Some(DocumentType::Commit)
    } else if s == "PLAN"@ {
        Some(DocumentType::Plan)
    } else if s == "RESEARCH"@ {
        Some(DocumentType::Research)
    } else {
        None
    }
}

impl DocumentType {
    pub fn as_str(self) -> (r: &'static str)
        ensures
            r@ == stored_name(self),
    {
        match self {
            DocumentType::Commit => "COMMIT",
            DocumentType::Plan => "PLAN",
            DocumentType::Research => "RESEARCH",
        }
    }

    pub fn from_db(value: &str) -> (r: Option<DocumentType>)
        ensures
            r == type_of_stored_name(value@),
    {
        if str_eq(value, "COMMIT") {
            Some(DocumentType::Commit)
        } else if str_eq(value, "PLAN") {
            Some(DocumentType::Plan)
        } else if str_eq(value, "RESEARCH") {
            Some(DocumentType::Research)
        } else {
            None
        }
    }
}

proof fn lemma_type_names_distinct()
    ensures
        "COMMIT"@ != "PLAN"@,
        "COMMIT"@ != "RESEARCH"@,
        "PLAN"@ != "RESEARCH"@,
{
    reveal_strlit("COMMIT");
    reveal_strlit("PLAN");
    reveal_strlit("RESEARCH");
    assert("COMMIT"@[0] != "PLAN"@[0]);
    assert("COMMIT"@[0] != "RESEARCH"@[0]);
    assert("PLAN"@[0] != "RESEARCH"@[0]);
}

/// Reading back the stored name of a type gives the type again.
pub proof fn law_stored_name_round_trip(t: DocumentType)
    ensures
        type_of_stored_name(stored_name(t)) == Some(t),
{
    lemma_type_names_distinct();
}

/// A name that reads as a type is exactly that type's stored name.
pub proof fn law_type_of_stored_name_exact(s: Seq<char>)
    ensures
        type_of_stored_name(s) matches Some(t) ==> stored_name(t) == s,
{
}

/// The metadata of one stored document.
#[derive(Clone, Debug)]
pub struct Document {
    pub id: String,
    /// Relative to the `.memory` directory, as in `documents/<id>.md`.
    pub document_path: String,
    pub created_at: String,
    pub invalidated: bool,
    pub invalidation_reason: Option<String>,
    pub quick_summary: String,
    pub document_type: DocumentType,
}

/// What a listing shows of one document.
#[derive(Clone, Debug)]
pub struct DocumentSummary {
    pub id: String,
    pub created_at: String,
    pub invalidated: bool,
    pub invalidation_reason: Option<String>,
    pub quick_summary: String,
    pub document_type: DocumentType,
    pub related_files: Vec<String>,
}

impl DocumentSummary {
    /// The summary of a document, with no related files yet.
    pub fn from_document(document: Document) -> (s: DocumentSummary)
        ensures
            s.id == document.id,
            s.created_at == document.created_at,
            s.invalidated == document.invalidated,
            s.invalidation_reason == document.invalidation_reason,
            s.quick_summary == document.quick_summary,
            s.document_type == document.document_type,
            s.related_files@ == Seq::<String>::empty(),
    {
        DocumentSummary {
            id: document.id,
            created_at: document.created_at,
            invalidated: document.invalidated,
            invalidation_reason: document.invalidation_reason,
            quick_summary: document.quick_summary,
            document_type: document.document_type,
            related_files: Vec::new(),
        }
    }
}

/// The input of `add`: a document body, its summary and type, and what it relates to.
#[derive(Clone, Debug)]
pub struct AddDocumentInput {
    pub document: String,
    pub summary: String,
    pub related_files: Vec<String>,
    pub related_documents: Vec<String>,
    pub document_type: DocumentType,
}

} // verus!
