use vstd::prelude::*;

verus! {

/// How many characters of each document body the query commands show.
#[derive(Clone, Debug)]
pub struct Config {
    pub query_files_preview_chars: usize,
    pub query_text_preview_chars: usize,
}

pub fn default_query_files_preview_chars() -> (r: usize)
    ensures
        r == 2000,
{
    2_000
}

pub fn default_query_text_preview_chars() -> (r: usize)
    ensures
        r == 200,
{
    200
}

impl Default for Config {
    fn default() -> (c: Config)
        ensures
            c.query_files_preview_chars == 2000,
            c.query_text_preview_chars == 200,
    {
        Config {
            query_files_preview_chars: default_query_files_preview_chars(),
            query_text_preview_chars: default_query_text_preview_chars(),
        }
    }
}

} // verus!
