use vstd::prelude::*;

use crate::collection::{Collection, SnippetV, pairs_of, wf_pairs};
use crate::document::{parse_document, render, render_document};
use crate::error::StorageError;

verus! {

/// The file-backed storage: the whole collection lives in one structured
/// text document at a configured path. The document codec is verified here;
/// reading and writing the file itself is the front end's concern, which
/// hands the file's contents in and takes the new contents back.
pub struct JsonStorage {
    pub path: String,
}

impl JsonStorage {
    /// A file backend over the document at `path`.
    pub fn new(path: String) -> (r: JsonStorage)
        ensures
            r.path@ == path@,
    {
        JsonStorage { path }
    }

    /// Where the document lives.
    pub fn path(&self) -> (r: &String)
        ensures
            r@ == self.path@,
    {
        &self.path
    }

    /// Build the collection from the document's contents. A missing file
    /// (`None`) is not an error: the store starts empty. A present document
    /// loads to exactly the collection that was saved into it — success is
    /// owed on every canonical document — and a text that is no rendering
    /// of a collection is a fatal parse error.
    pub fn load(&self, contents: Option<&str>) -> (r: Result<Collection, StorageError>)
        ensures
            contents is None ==> (r matches Ok(c) && c.wf() && c@ == Map::<
                Seq<char>,
                SnippetV,
            >::empty() && c.entries@.len() == 0),
            contents matches Some(s) ==> ((r matches Ok(c) ==> c.wf() && render(
                pairs_of(c.entries@),
            ) == s@ && (forall|m: Seq<(Seq<char>, SnippetV)>|
                wf_pairs(m) && render(m) == s@ ==> m == pairs_of(c.entries@))) && (r matches Err(e)
                ==> e == StorageError::Parse && (forall|m: Seq<(Seq<char>, SnippetV)>|
                wf_pairs(m) ==> #[trigger] render(m) != s@))),
    {
        match contents {
            None => Ok(Collection::new()),
            Some(s) => parse_document(s),
        }
    }

    /// Render the collection as the full new contents of the document: every
    /// save rewrites the whole file, so the persisted state is exactly the
    /// given collection and nothing of any earlier state survives.
    pub fn save(&self, col: &Collection) -> (r: String)
        requires
            col.wf(),
        ensures
            r@ == render(pairs_of(col.entries@)),
    {
        render_document(col)
    }
}

} // verus!
