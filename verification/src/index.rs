//! The full-text index over part texts, backed by the tantivy search
//! engine behind trusted wrappers.
//!
//! The engine's state is modelled by three document sequences, each a list
//! of `(part id, text)` pairs in operation order:
//! - [`staged_docs`]: what the writer's queue would make durable if it
//!   committed now;
//! - [`committed_docs`]: what the last commit made durable;
//! - [`visible_docs`]: what the reader's searchers see, namely the commits
//!   up to its last reload (the reader is built with a manual reload
//!   policy, so visibility moves only on [`SearchIndex::reload`]).
//!
//! Adding queues a document; deleting by id queues the removal of every
//! earlier-added document carrying that id; committing publishes the queue;
//! reloading lets searches see the last commit.

use vstd::prelude::*;

use tantivy::TantivyDocument;
use tantivy::collector::TopDocs;
use tantivy::query::QueryParser;
use tantivy::schema::Value as TantivyValue;

use crate::Error;

verus! {

/// A tantivy index over documents with a stored string `id` field and an
/// indexed `text` field, together with its single writer and a
/// manual-reload reader.
#[verifier::external_body]
pub struct SearchIndex {
    index: tantivy::Index,
    writer: tantivy::IndexWriter,
    reader: tantivy::IndexReader,
    id_field: tantivy::schema::Field,
    text_field: tantivy::schema::Field,
}

/// What the writer's queue would make durable if it committed now.
pub uninterp spec fn staged_docs(i: SearchIndex) -> Seq<(i64, Seq<char>)>;

/// What the last commit made durable.
pub uninterp spec fn committed_docs(i: SearchIndex) -> Seq<(i64, Seq<char>)>;

/// What the reader's searchers see: the commits up to its last reload.
pub uninterp spec fn visible_docs(i: SearchIndex) -> Seq<(i64, Seq<char>)>;

/// The ids of the documents that match a query, among the given
/// documents. Whether one document matches depends on the query and that
/// document's text alone, so the matching ids are a function of the query
/// and the document list.
pub uninterp spec fn query_match_ids(query: Seq<char>, docs: Seq<(i64, Seq<char>)>) -> Set<int>;

/// The documents that survive deleting one id.
pub open spec fn docs_without_id(docs: Seq<(i64, Seq<char>)>, id: int) -> Seq<(i64, Seq<char>)>
    decreases docs.len(),
{
    if docs.len() == 0 {
        Seq::empty()
    } else if docs.last().0 as int == id {
        docs_without_id(docs.drop_last(), id)
    } else {
        docs_without_id(docs.drop_last(), id).push(docs.last())
    }
}

/// Whether some document carries the given id.
pub open spec fn index_has_id(docs: Seq<(i64, Seq<char>)>, id: int) -> bool {
    exists|j: int| 0 <= j < docs.len() && docs[j].0 as int == id
}

impl SearchIndex {
    /// Relies on tantivy's `Index::create_in_ram`, `Index::writer` and
    /// `IndexReaderBuilder::try_into`: a fresh in-memory index holds no
    /// documents in any state, and a manual-policy reader sees nothing
    /// until a commit is reloaded.
    #[verifier::external_body]
    pub fn new() -> (r: Result<SearchIndex, Error>)
        ensures
            r is Err ==> r matches Err(Error::Message(_)),
            r is Ok ==> {
                &&& staged_docs(r.unwrap()) == Seq::<(i64, Seq<char>)>::empty()
                &&& committed_docs(r.unwrap()) == Seq::<(i64, Seq<char>)>::empty()
                &&& visible_docs(r.unwrap()) == Seq::<(i64, Seq<char>)>::empty()
            },
    {
        let mut builder = tantivy::schema::Schema::builder();
        let id_field = builder.add_text_field(
            "id",
            tantivy::schema::STRING | tantivy::schema::STORED,
        );
        let text_field = builder.add_text_field("text", tantivy::schema::TEXT);
        let index = tantivy::Index::create_in_ram(builder.build());
        let writer = index.writer(50_000_000).map_err(|e| Error::Message(e.to_string()))?;
        let reader = index
            .reader_builder()
            .reload_policy(tantivy::ReloadPolicy::Manual)
            .try_into()
            .map_err(|e| Error::Message(e.to_string()))?;
        Ok(SearchIndex { index, writer, reader, id_field, text_field })
    }

    /// Relies on tantivy's `IndexWriter::add_document`: the queued document
    /// joins the pending state, nothing becomes durable or visible, and a
    /// failed send queues nothing.
    #[verifier::external_body]
    pub fn add_doc(&mut self, id: i64, text: &String) -> (r: Result<(), Error>)
        ensures
            committed_docs(*final(self)) == committed_docs(*old(self)),
            visible_docs(*final(self)) == visible_docs(*old(self)),
            r is Err ==> r matches Err(Error::Message(_)),
            r is Err ==> staged_docs(*final(self)) == staged_docs(*old(self)),
            r is Ok ==> staged_docs(*final(self)) == staged_docs(*old(self)).push((id, text@)),
    {
        let mut doc = tantivy::TantivyDocument::default();
        doc.add_text(self.id_field, id.to_string());
        doc.add_text(self.text_field, text);
        self.writer.add_document(doc).map(|_| ()).map_err(|e| Error::Message(e.to_string()))
    }

    /// Relies on tantivy's `IndexWriter::delete_term`: every document with
    /// the given id that was added before this operation leaves the pending
    /// state at the next commit; nothing becomes durable or visible.
    #[verifier::external_body]
    pub fn delete_doc(&mut self, id: i64)
        ensures
            committed_docs(*final(self)) == committed_docs(*old(self)),
            visible_docs(*final(self)) == visible_docs(*old(self)),
            staged_docs(*final(self)) == docs_without_id(staged_docs(*old(self)), id as int),
    {
        let term = tantivy::Term::from_field_text(self.id_field, &id.to_string());
        self.writer.delete_term(term);
    }

    /// Relies on tantivy's `IndexWriter::commit`: on success every pending
    /// add and delete is published and persisted; the reader stays on its
    /// last reloaded state either way.
    #[verifier::external_body]
    pub fn commit(&mut self) -> (r: Result<(), Error>)
        ensures
            visible_docs(*final(self)) == visible_docs(*old(self)),
            r is Err ==> r matches Err(Error::Message(_)),
            r is Ok ==> {
                &&& committed_docs(*final(self)) == staged_docs(*old(self))
                &&& staged_docs(*final(self)) == staged_docs(*old(self))
            },
    {
        self.writer.commit().map(|_| ()).map_err(|e| Error::Message(e.to_string()))
    }

    /// Relies on tantivy's `IndexReader::reload`: on success the searchers
    /// reflect the state of the last commit; the writer's states are
    /// untouched either way.
    #[verifier::external_body]
    pub fn reload(&mut self) -> (r: Result<(), Error>)
        ensures
            staged_docs(*final(self)) == staged_docs(*old(self)),
            committed_docs(*final(self)) == committed_docs(*old(self)),
            r is Err ==> r matches Err(Error::Message(_)),
            r is Ok ==> visible_docs(*final(self)) == committed_docs(*old(self)),
    {
        self.reader.reload().map_err(|e| Error::Message(e.to_string()))
    }

    /// Relies on tantivy's `QueryParser::parse_query`, `Searcher::search`
    /// with a `TopDocs` collector, and `Searcher::doc`, all against one
    /// searcher: at most `limit` ranked hits come back, each the stored
    /// decimal id of a document of the searched (visible) state, and each
    /// a match of the query against that state. An error comes only from
    /// the engine or an unparsable query; `requires limit >= 1` excludes
    /// the collector's one panic.
    #[verifier::external_body]
    pub fn search_ids(&self, query: &String, limit: usize) -> (r: Result<Vec<i64>, Error>)
        requires
            limit >= 1,
        ensures
            r is Err ==> r matches Err(Error::Message(_)),
            r is Ok ==> {
                &&& r.unwrap()@.len() <= limit
                &&& forall|k: int|
                    0 <= k < r.unwrap()@.len() ==> query_match_ids(
                        query@,
                        visible_docs(*self),
                    ).contains(#[trigger] r.unwrap()@[k] as int)
                &&& forall|k: int|
                    0 <= k < r.unwrap()@.len() ==> index_has_id(
                        visible_docs(*self),
                        #[trigger] r.unwrap()@[k] as int,
                    )
            },
    {
        let searcher = self.reader.searcher();
        let q = QueryParser::for_index(&self.index, vec![self.text_field]).parse_query(
            query.as_str(),
        ).map_err(|e| Error::Message(e.to_string()))?;
        let top = searcher.search(&q, &TopDocs::with_limit(limit).order_by_score()).map_err(|e| Error::Message(e.to_string()))?;
        let mut ids: Vec<i64> = Vec::new();
        for hit in top {
            if let Ok(doc) = searcher.doc::<TantivyDocument>(hit.1) {
                if let Some(n) = doc.get_first(self.id_field).and_then(|v| v.as_str()).and_then(|s| s.parse().ok()) {
                    ids.push(n);
                }
            }
        }
        Ok(ids)
    }
}

/// The documents that carry one id, in order.
pub open spec fn docs_with_id(docs: Seq<(i64, Seq<char>)>, id: int) -> Seq<(i64, Seq<char>)>
    decreases docs.len(),
{
    if docs.len() == 0 {
        Seq::empty()
    } else if docs.last().0 as int == id {
        docs_with_id(docs.drop_last(), id).push(docs.last())
    } else {
        docs_with_id(docs.drop_last(), id)
    }
}

/// Deleting an id leaves no document with that id.
pub proof fn lemma_docs_with_id_after_delete(docs: Seq<(i64, Seq<char>)>, id: int)
    ensures
        docs_with_id(docs_without_id(docs, id), id) == Seq::<(i64, Seq<char>)>::empty(),
    decreases docs.len(),
{
    if docs.len() > 0 {
        lemma_docs_with_id_after_delete(docs.drop_last(), id);
        if docs.last().0 as int != id {
            assert(docs_without_id(docs, id) == docs_without_id(docs.drop_last(), id).push(
                docs.last(),
            ));
            assert(docs_without_id(docs, id).drop_last() =~= docs_without_id(
                docs.drop_last(),
                id,
            ));
        }
    }
}

/// Deleting one id does not change the documents of another.
pub proof fn lemma_docs_with_id_delete_other(docs: Seq<(i64, Seq<char>)>, a: int, b: int)
    requires
        a != b,
    ensures
        docs_with_id(docs_without_id(docs, a), b) == docs_with_id(docs, b),
    decreases docs.len(),
{
    if docs.len() > 0 {
        lemma_docs_with_id_delete_other(docs.drop_last(), a, b);
        if docs.last().0 as int != a {
            assert(docs_without_id(docs, a) == docs_without_id(docs.drop_last(), a).push(
                docs.last(),
            ));
            assert(docs_without_id(docs, a).drop_last() =~= docs_without_id(
                docs.drop_last(),
                a,
            ));
        }
    }
}

/// Appending a document changes only its own id's documents.
pub proof fn lemma_docs_with_id_push(docs: Seq<(i64, Seq<char>)>, d: (i64, Seq<char>), id: int)
    ensures
        docs_with_id(docs.push(d), id) == if d.0 as int == id {
            docs_with_id(docs, id).push(d)
        } else {
            docs_with_id(docs, id)
        },
{
    assert(docs.push(d).drop_last() =~= docs);
}

} // verus!
