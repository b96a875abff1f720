use vstd::prelude::*;

verus! {

/// The command line: the root of the codebase and one command.
#[derive(Clone, Debug)]
pub struct Cli {
    pub root: String,
    pub command: Commands,
}

/// The commands of the memory bank.
#[derive(Clone, Debug)]
pub enum Commands {
    Init { rebuild: bool },
    Add,
    Read { document_id: String },
    QueryFiles { files: Vec<String>, include_invalidated: bool },
    QueryResearch { topic: String, include_invalidated: bool },
    QueryPlans { term: String, include_invalidated: bool },
}

} // verus!
