//! Document records, as delivered by the document-management service.
use vstd::prelude::*;

verus! {

/// One page of a document listing.
#[derive(Debug)]
pub struct Documents {
    pub count: u64,
    pub next: Option<String>,
    pub previous: Option<String>,
    pub all: Vec<u64>,
    pub results: Vec<Document>,
}

/// A snapshot of one archived document and its metadata.
#[derive(Debug, Clone)]
pub struct Document {
    pub id: u64,
    pub correspondent: Option<u64>,
    pub document_type: u64,
    pub storage_path: Option<u64>,
    pub title: String,
    pub content: String,
    pub tags: Vec<u64>,
    pub created: String,
    pub created_date: String,
    pub modified: String,
    pub added: String,
    pub archive_serial_number: u64,
}

} // verus!
