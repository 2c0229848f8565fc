//! Documents cut into chunks and found again by similarity.
//!
//! A document is split into chunks of words. Every chunk is kept with a
//! vector for its meaning. A search scores all chunks against the vector of
//! the query and gives those of highest score, or asks an index over the
//! vectors where one is set up and no condition is put on the documents.

use crate::audit::Timestamp;
use crate::chunking;
use crate::compression::{self, compress_text, Body};
use crate::embedding;
use crate::hlb::{self, cosine_similarity};
use crate::index::{self, VectorIndex};
use crate::json::{self, copy_members, find_member, same_json, Json};
use crate::kernel::Kernel;
use crate::persistence::{self, version_message, PersistError};
use crate::ranking::{self, top_positions};
use crate::score::{self, nan, place};
use crate::text::{
    self, contains_text, copy_texts, decimal_string, same_text, to_lowercase, truncated,
};
use std::sync::Arc;
use vstd::prelude::*;

pub use crate::chunking::chunk_text;
pub use crate::embedding::{Encoder, MockEncoder};

verus! {

broadcast use vstd::string::group_string_axioms;

/// How many words a chunk has unless told otherwise.
pub const DEFAULT_CHUNK_SIZE: usize = 200;

/// How many words chunks share unless told otherwise.
pub const DEFAULT_CHUNK_OVERLAP: usize = 20;

/// How many characters of a chunk are kept.
pub const CHUNK_CHARS: usize = 500;

/// The version of the snapshot format.
pub const DOC_SCHEMA_VERSION: u32 = 1;

// ---------------------------------------------------------------------
// Documents and chunks
// ---------------------------------------------------------------------

/// What is known of a document.
#[derive(Debug, Clone)]
pub struct DocumentEntry {
    pub doc_id: String,
    pub metadata: Vec<(String, Json)>,
    pub n_chunks: usize,
    pub added_ts: Timestamp,
}

/// What an entry holds.
#[verifier::ext_equal]
pub struct EntryState {
    pub doc_id: Seq<char>,
    pub metadata: Seq<(Seq<char>, json::Tree)>,
    pub n_chunks: nat,
    pub added: Timestamp,
}

impl View for DocumentEntry {
    type V = EntryState;

    open spec fn view(&self) -> EntryState {
        EntryState {
            doc_id: self.doc_id@,
            metadata: json::members(self.metadata@),
            n_chunks: self.n_chunks as nat,
            added: self.added_ts,
        }
    }
}

impl DocumentEntry {
    /// A copy that holds the same.
    pub fn copy(&self) -> (r: Self)
        ensures
            r@ == self@,
    {
        DocumentEntry {
            doc_id: self.doc_id.clone(),
            metadata: copy_members(&self.metadata),
            n_chunks: self.n_chunks,
            added_ts: self.added_ts,
        }
    }
}

/// A part of a document with its vector. The text is held compressed where
/// that makes it shorter.
#[derive(Debug, Clone)]
pub struct Chunk {
    pub id: String,
    pub doc_id: String,
    pub idx: usize,
    body: Body,
    pub embedding: Vec<u32>,
}

/// What a chunk holds.
#[verifier::ext_equal]
pub struct ChunkState {
    pub id: Seq<char>,
    pub doc_id: Seq<char>,
    pub idx: nat,
    pub text: Seq<char>,
    pub embedding: Seq<u32>,
}

impl View for Chunk {
    type V = ChunkState;

    closed spec fn view(&self) -> ChunkState {
        ChunkState {
            id: self.id@,
            doc_id: self.doc_id@,
            idx: self.idx as nat,
            text: self.body.content(),
            embedding: self.embedding@,
        }
    }
}

impl Chunk {
    /// The form in which the text is held.
    pub closed spec fn held(&self) -> Body {
        self.body
    }

    /// A chunk.
    pub fn new(id: String, doc_id: String, idx: usize, text: &str, embedding: Vec<u32>) -> (r: Self)
        ensures
            r@ == (ChunkState {
                id: id@,
                doc_id: doc_id@,
                idx: idx as nat,
                text: text@,
                embedding: embedding@,
            }),
            r.held() is Gzip <==> compression::worth_compressing(text@),
    {
        Chunk { id, doc_id, idx, body: compress_text(text), embedding }
    }

    /// The text.
    pub fn text(&self) -> (r: String)
        ensures
            r@ == self@.text,
    {
        self.body.text()
    }

    /// How many bytes the text takes as it is held.
    pub fn stored_bytes(&self) -> (r: usize)
        ensures
            r == self.held().size(),
    {
        self.body.stored_bytes()
    }

    /// Whether the text is held compressed.
    pub fn is_compressed(&self) -> (r: bool)
        ensures
            r == (self.held() is Gzip),
    {
        self.body.is_compressed()
    }
}

/// The id of a chunk.
pub open spec fn chunk_id(doc_id: Seq<char>, i: nat) -> Seq<char> {
    doc_id + "#chunk_"@ + text::decimal(i)
}

/// The chunks of a document, for as many texts as there are vectors.
pub open spec fn new_chunks(
    doc_id: Seq<char>,
    texts: Seq<Seq<char>>,
    vectors: Seq<Seq<u32>>,
) -> Seq<ChunkState> {
    Seq::new(
        if texts.len() < vectors.len() {
            texts.len()
        } else {
            vectors.len()
        },
        |i: int|
            ChunkState {
                id: chunk_id(doc_id, i as nat),
                doc_id,
                idx: i as nat,
                text: text::prefix(texts[i], CHUNK_CHARS as nat),
                embedding: vectors[i],
            },
    )
}

// ---------------------------------------------------------------------
// The store
// ---------------------------------------------------------------------

/// What a document store holds.
#[verifier::ext_equal]
pub struct LibraryState {
    /// The documents, each id once.
    pub documents: Seq<EntryState>,
    /// The chunks in the order in which they came in.
    pub chunks: Seq<ChunkState>,
    /// How many words a chunk has.
    pub chunk_size: nat,
    /// How many words chunks share.
    pub chunk_overlap: nat,
}

/// A document with the id is among `documents`.
pub open spec fn has_document(documents: Seq<EntryState>, doc_id: Seq<char>) -> bool {
    exists|i: int| 0 <= i < documents.len() && (#[trigger] documents[i]).doc_id == doc_id
}

/// The documents without the one with the id.
pub open spec fn documents_without(documents: Seq<EntryState>, doc_id: Seq<char>) -> Seq<EntryState>
    decreases documents.len(),
{
    if documents.len() == 0 {
        Seq::empty()
    } else {
        let before = documents_without(documents.drop_last(), doc_id);
        if documents.last().doc_id == doc_id {
            before
        } else {
            before.push(documents.last())
        }
    }
}

/// The chunks that do not belong to the document with the id.
pub open spec fn chunks_without(chunks: Seq<ChunkState>, doc_id: Seq<char>) -> Seq<ChunkState>
    decreases chunks.len(),
{
    if chunks.len() == 0 {
        Seq::empty()
    } else {
        let before = chunks_without(chunks.drop_last(), doc_id);
        if chunks.last().doc_id == doc_id {
            before
        } else {
            before.push(chunks.last())
        }
    }
}

impl LibraryState {
    /// No id occurs twice, and chunks share fewer words than they have.
    pub open spec fn valid(self) -> bool {
        &&& forall|i: int, j: int|
            0 <= i < j < self.documents.len() ==> (#[trigger] self.documents[i]).doc_id != (
            #[trigger] self.documents[j]).doc_id
        &&& self.chunk_overlap < self.chunk_size || self.chunk_overlap == 0
    }

    /// Each chunk belongs to a document that is known.
    pub open spec fn owned(self) -> bool {
        forall|i: int|
            0 <= i < self.chunks.len() ==> has_document(
                self.documents,
                (#[trigger] self.chunks[i]).doc_id,
            )
    }

    /// The state without the document with the id.
    pub open spec fn without(self, doc_id: Seq<char>) -> LibraryState {
        LibraryState {
            documents: documents_without(self.documents, doc_id),
            chunks: chunks_without(self.chunks, doc_id),
            ..self
        }
    }

    /// The state with a document in place of one with the same id.
    pub open spec fn with(
        self,
        doc_id: Seq<char>,
        texts: Seq<Seq<char>>,
        vectors: Seq<Seq<u32>>,
        metadata: Seq<(Seq<char>, json::Tree)>,
        now: Timestamp,
    ) -> LibraryState {
        let base = self.cleared(doc_id);
        LibraryState {
            documents: base.documents.push(
                EntryState { doc_id, metadata, n_chunks: texts.len(), added: now },
            ),
            chunks: base.chunks + new_chunks(doc_id, texts, vectors),
            ..base
        }
    }

    /// The state ready to take a document in: one with the same id is gone.
    pub open spec fn cleared(self, doc_id: Seq<char>) -> LibraryState {
        if has_document(self.documents, doc_id) {
            self.without(doc_id)
        } else {
            self
        }
    }

    /// The metadata of a document, empty for one that is not known.
    pub open spec fn metadata_of(self, doc_id: Seq<char>) -> Seq<(Seq<char>, json::Tree)> {
        match entry_of(self.documents, doc_id) {
            Some(e) => e.metadata,
            None => Seq::empty(),
        }
    }
}

/// The entry with the id.
pub open spec fn entry_of(documents: Seq<EntryState>, doc_id: Seq<char>) -> Option<EntryState>
    decreases documents.len(),
{
    if documents.len() == 0 {
        None
    } else if documents[0].doc_id == doc_id {
        Some(documents[0])
    } else {
        entry_of(documents.skip(1), doc_id)
    }
}

// ---------------------------------------------------------------------
// Laws
// ---------------------------------------------------------------------

/// What is left without a document holds nothing of it and everything else.
pub proof fn without_drops_exactly_the_document(v: LibraryState, doc_id: Seq<char>)
    requires
        v.valid(),
    ensures
        v.without(doc_id).valid(),
        !has_document(v.without(doc_id).documents, doc_id),
        forall|i: int|
            0 <= i < v.without(doc_id).chunks.len() ==> (#[trigger] v.without(
                doc_id,
            ).chunks[i]).doc_id != doc_id,
        forall|c: ChunkState|
            c.doc_id != doc_id ==> (#[trigger] v.without(doc_id).chunks.contains(c)
                <==> v.chunks.contains(c)),
        forall|e: EntryState|
            e.doc_id != doc_id ==> (#[trigger] v.without(doc_id).documents.contains(e)
                <==> v.documents.contains(e)),
{
    documents_without_facts(v.documents, doc_id);
    chunks_without_facts(v.chunks, doc_id);
}

proof fn documents_without_facts(documents: Seq<EntryState>, doc_id: Seq<char>)
    requires
        forall|i: int, j: int|
            0 <= i < j < documents.len() ==> (#[trigger] documents[i]).doc_id != (
            #[trigger] documents[j]).doc_id,
    ensures
        ({
            let r = documents_without(documents, doc_id);
            &&& !has_document(r, doc_id)
            &&& forall|i: int, j: int|
                0 <= i < j < r.len() ==> (#[trigger] r[i]).doc_id != (#[trigger] r[j]).doc_id
            &&& forall|e: EntryState|
                e.doc_id != doc_id ==> (#[trigger] r.contains(e) <==> documents.contains(e))
            &&& forall|i: int| 0 <= i < r.len() ==> documents.contains(#[trigger] r[i])
        }),
    decreases documents.len(),
{
    if documents.len() > 0 {
        let init = documents.drop_last();
        let last = documents.last();
        documents_without_facts(init, doc_id);
        let before = documents_without(init, doc_id);
        let r = documents_without(documents, doc_id);
        assert forall|e: EntryState| init.contains(e) implies documents.contains(e) by {
            let i = init.index_of(e);
            assert(documents[i] == e);
        }
        assert(documents[documents.len() - 1] == last);
        assert(documents.contains(last));
        assert forall|e: EntryState| e.doc_id != doc_id implies (#[trigger] r.contains(e)
            <==> documents.contains(e)) by {
            if documents.contains(e) {
                let i = documents.index_of(e);
                if i < init.len() {
                    assert(init[i] == e);
                    assert(init.contains(e));
                    assert(before.contains(e));
                    let j = before.index_of(e);
                    assert(r[j] == e);
                } else {
                    assert(r.last() == last);
                    assert(r[r.len() - 1] == e);
                }
            }
            if r.contains(e) {
                let j = r.index_of(e);
                if j < before.len() {
                    assert(before[j] == e);
                    assert(before.contains(e));
                }
            }
        }
        assert forall|i: int| 0 <= i < r.len() implies documents.contains(#[trigger] r[i]) by {
            if i < before.len() {
                assert(r[i] == before[i]);
            }
        }
        if last.doc_id != doc_id {
            assert forall|i: int| 0 <= i < before.len() implies (#[trigger] before[i]).doc_id
                != last.doc_id by {
                assert(init.contains(before[i]));
                let k = init.index_of(before[i]);
                assert(documents[k] == before[i]);
            }
        }
        assert forall|i: int, j: int| 0 <= i < j < r.len() implies (#[trigger] r[i]).doc_id != (
        #[trigger] r[j]).doc_id by {
            assert(r[i] == before[i]);
            if j < before.len() {
                assert(r[j] == before[j]);
            }
        }
        assert(!has_document(r, doc_id)) by {
            if has_document(r, doc_id) {
                let i = choose|i: int| 0 <= i < r.len() && (#[trigger] r[i]).doc_id == doc_id;
                if i < before.len() {
                    assert(before[i].doc_id == doc_id);
                }
            }
        }
    }
}

proof fn chunks_without_facts(chunks: Seq<ChunkState>, doc_id: Seq<char>)
    ensures
        ({
            let r = chunks_without(chunks, doc_id);
            &&& r.len() <= chunks.len()
            &&& forall|i: int| 0 <= i < r.len() ==> (#[trigger] r[i]).doc_id != doc_id
            &&& forall|c: ChunkState|
                c.doc_id != doc_id ==> (#[trigger] r.contains(c) <==> chunks.contains(c))
            &&& r.len() == chunks.len() ==> r == chunks
        }),
    decreases chunks.len(),
{
    if chunks.len() > 0 {
        let init = chunks.drop_last();
        let last = chunks.last();
        chunks_without_facts(init, doc_id);
        let before = chunks_without(init, doc_id);
        let r = chunks_without(chunks, doc_id);
        assert forall|c: ChunkState| c.doc_id != doc_id implies (#[trigger] r.contains(c)
            <==> chunks.contains(c)) by {
            if chunks.contains(c) {
                let i = chunks.index_of(c);
                if i < init.len() {
                    assert(init[i] == c);
                    assert(init.contains(c));
                    assert(before.contains(c));
                    let j = before.index_of(c);
                    assert(r[j] == c);
                } else {
                    assert(r[r.len() - 1] == c);
                }
            }
            if r.contains(c) {
                let j = r.index_of(c);
                if j < before.len() {
                    assert(before[j] == c);
                    assert(before.contains(c));
                    let i = init.index_of(c);
                    assert(chunks[i] == c);
                } else {
                    assert(chunks[chunks.len() - 1] == c);
                }
            }
        }
        assert forall|i: int| 0 <= i < r.len() implies (#[trigger] r[i]).doc_id != doc_id by {
            if i < before.len() {
                assert(r[i] == before[i]);
            }
        }
        if r.len() == chunks.len() {
            assert(before.push(last) =~= chunks);
        }
    }
}

/// Adding a document keeps a state valid; the document is then known, and all
/// chunks that belong to it are the new ones.
pub proof fn added_document_replaces(
    v: LibraryState,
    doc_id: Seq<char>,
    texts: Seq<Seq<char>>,
    vectors: Seq<Seq<u32>>,
    metadata: Seq<(Seq<char>, json::Tree)>,
    now: Timestamp,
)
    requires
        v.valid(),
        v.owned(),
    ensures
        v.with(doc_id, texts, vectors, metadata, now).valid(),
        has_document(v.with(doc_id, texts, vectors, metadata, now).documents, doc_id),
        ({
            let w = v.with(doc_id, texts, vectors, metadata, now);
            let old_len = v.cleared(doc_id).chunks.len();
            forall|i: int|
                0 <= i < w.chunks.len() ==> ((#[trigger] w.chunks[i]).doc_id == doc_id <==> i
                    >= old_len)
        }),
{
    let base = v.cleared(doc_id);
    let w = v.with(doc_id, texts, vectors, metadata, now);
    without_drops_exactly_the_document(v, doc_id);
    assert(!has_document(base.documents, doc_id));
    assert(w.documents[w.documents.len() - 1].doc_id == doc_id);
    assert forall|i: int, j: int| 0 <= i < j < w.documents.len() implies (#[trigger] w.documents[i]).doc_id
        != (#[trigger] w.documents[j]).doc_id by {
        assert(w.documents[i] == base.documents[i]);
        if j < base.documents.len() {
            assert(w.documents[j] == base.documents[j]);
        }
    }
    assert forall|i: int| 0 <= i < w.chunks.len() implies ((#[trigger] w.chunks[i]).doc_id == doc_id
        <==> i >= base.chunks.len()) by {
        if i < base.chunks.len() {
            assert(w.chunks[i] == base.chunks[i]);
            if !has_document(v.documents, doc_id) && base.chunks[i].doc_id == doc_id {
                assert(has_document(v.documents, v.chunks[i].doc_id));
            }
        } else {
            assert(w.chunks[i] == new_chunks(doc_id, texts, vectors)[i - base.chunks.len()]);
        }
    }
}

/// Where each chunk belongs to a known document, it still does after a
/// document was forgotten and after one was added.
pub proof fn chunks_stay_owned(
    v: LibraryState,
    doc_id: Seq<char>,
    texts: Seq<Seq<char>>,
    vectors: Seq<Seq<u32>>,
    metadata: Seq<(Seq<char>, json::Tree)>,
    now: Timestamp,
)
    requires
        v.valid(),
        v.owned(),
    ensures
        v.without(doc_id).owned(),
        v.with(doc_id, texts, vectors, metadata, now).owned(),
{
    let gone = v.without(doc_id);
    without_drops_exactly_the_document(v, doc_id);
    assert forall|i: int| 0 <= i < gone.chunks.len() implies has_document(
        gone.documents,
        (#[trigger] gone.chunks[i]).doc_id,
    ) by {
        let c = gone.chunks[i];
        assert(gone.chunks.contains(c));
        assert(v.chunks.contains(c));
        let j = choose|j: int| 0 <= j < v.chunks.len() && v.chunks[j] == c;
        assert(has_document(v.documents, v.chunks[j].doc_id));
        let d = choose|d: int| 0 <= d < v.documents.len() && (#[trigger] v.documents[d]).doc_id
            == c.doc_id;
        assert(v.documents.contains(v.documents[d]));
        assert(gone.documents.contains(v.documents[d]));
        let e = choose|e: int| 0 <= e < gone.documents.len() && gone.documents[e] == v.documents[d];
        assert(gone.documents[e].doc_id == c.doc_id);
    }
    let base = v.cleared(doc_id);
    let w = v.with(doc_id, texts, vectors, metadata, now);
    assert forall|i: int| 0 <= i < w.chunks.len() implies has_document(
        w.documents,
        (#[trigger] w.chunks[i]).doc_id,
    ) by {
        if i < base.chunks.len() {
            assert(w.chunks[i] == base.chunks[i]);
            let d = choose|d: int|
                0 <= d < base.documents.len() && (#[trigger] base.documents[d]).doc_id
                    == base.chunks[i].doc_id;
            assert(w.documents[d] == base.documents[d]);
        } else {
            assert(w.chunks[i] == new_chunks(doc_id, texts, vectors)[i - base.chunks.len()]);
            assert(w.documents[w.documents.len() - 1].doc_id == doc_id);
        }
    }
}

// ---------------------------------------------------------------------
// Search
// ---------------------------------------------------------------------

/// A chunk that a search found.
#[derive(Debug, Clone)]
pub struct SearchHit {
    pub chunk_id: String,
    pub doc_id: String,
    pub score: u32,
    pub text: String,
    /// The metadata of the document that the chunk belongs to.
    pub metadata: Vec<(String, Json)>,
}

/// What a hit holds.
#[verifier::ext_equal]
pub struct HitState {
    pub chunk_id: Seq<char>,
    pub doc_id: Seq<char>,
    pub score: u32,
    pub text: Seq<char>,
    pub metadata: Seq<(Seq<char>, json::Tree)>,
}

impl View for SearchHit {
    type V = HitState;

    open spec fn view(&self) -> HitState {
        HitState {
            chunk_id: self.chunk_id@,
            doc_id: self.doc_id@,
            score: self.score,
            text: self.text@,
            metadata: json::members(self.metadata@),
        }
    }
}

/// The hits in a list.
pub open spec fn hits(v: Seq<SearchHit>) -> Seq<HitState> {
    v.map_values(|h: SearchHit| h@)
}

/// The hit for chunk number `i` with a score.
pub open spec fn hit_of(v: LibraryState, i: int, score: u32) -> HitState {
    let c = v.chunks[i];
    HitState {
        chunk_id: c.id,
        doc_id: c.doc_id,
        score,
        text: c.text,
        metadata: v.metadata_of(c.doc_id),
    }
}

/// Conditions on what a search may find. Those that are set must all hold.
#[derive(Debug, Clone)]
pub struct SearchFilter {
    /// Members that the metadata of the document must have.
    pub metadata: Vec<(String, Json)>,
    /// A text that must occur in the chunk, in any case.
    pub contains_text: Option<String>,
    /// The least score.
    pub min_score: Option<u32>,
    /// The documents to search in.
    pub doc_ids: Option<Vec<String>>,
}

/// What a filter holds.
#[verifier::ext_equal]
pub struct FilterState {
    pub metadata: Seq<(Seq<char>, json::Tree)>,
    pub contains_text: Option<Seq<char>>,
    pub min_score: Option<u32>,
    pub doc_ids: Option<Seq<Seq<char>>>,
}

impl View for SearchFilter {
    type V = FilterState;

    open spec fn view(&self) -> FilterState {
        FilterState {
            metadata: json::members(self.metadata@),
            contains_text: match self.contains_text {
                Some(s) => Some(s@),
                None => None,
            },
            min_score: self.min_score,
            doc_ids: match self.doc_ids {
                Some(v) => Some(text::texts(v@)),
                None => None,
            },
        }
    }
}

impl FilterState {
    /// No condition is set.
    pub open spec fn is_open(self) -> bool {
        &&& self.metadata.len() == 0
        &&& self.contains_text is None
        &&& self.min_score is None
        &&& self.doc_ids is None
    }

    /// The conditions on the document hold.
    pub open spec fn admits(self, e: EntryState) -> bool {
        &&& self.doc_ids matches Some(ids) ==> ids.contains(e.doc_id)
        &&& forall|i: int|
            0 <= i < self.metadata.len() ==> json::member(
                e.metadata,
                (#[trigger] self.metadata[i]).0,
            ) is Some && json::alike(
                json::member(e.metadata, self.metadata[i].0)->0,
                self.metadata[i].1,
            )
    }

    /// The conditions on the document and the text of a chunk hold.
    pub open spec fn admits_chunk(self, v: LibraryState, c: ChunkState) -> bool {
        &&& entry_of(v.documents, c.doc_id) matches Some(e) && self.admits(e)
        &&& self.contains_text matches Some(n) ==> text::has_part(
            text::lowered(c.text),
            text::lowered(n),
        )
    }
}

/// An id is among those listed, if any are.
pub open spec fn is_listed(doc_id: Seq<char>, ids: Option<Vec<String>>) -> bool {
    ids matches Some(list) ==> exists|j: int|
        0 <= j < list@.len() && (#[trigger] list@[j])@ == doc_id
}

impl Default for SearchFilter {
    fn default() -> (r: Self)
        ensures
            r@.is_open(),
    {
        SearchFilter { metadata: Vec::new(), contains_text: None, min_score: None, doc_ids: None }
    }
}

impl SearchFilter {
    /// Whether no condition is set.
    pub fn is_empty(&self) -> (r: bool)
        ensures
            r == self@.is_open(),
    {
        self.metadata.len() == 0 && self.contains_text.is_none() && self.min_score.is_none()
            && self.doc_ids.is_none()
    }

    /// Whether the conditions on the document hold.
    pub fn doc_matches(&self, entry: &DocumentEntry) -> (r: bool)
        ensures
            r == self@.admits(entry@),
            r ==> forall|i: int|
                0 <= i < self.metadata@.len() ==> holds(
                    json::members(entry.metadata@),
                    (#[trigger] self.metadata@[i]).0@,
                    self.metadata@[i].1@,
                ),
            r ==> is_listed(entry.doc_id@, self.doc_ids),
    {
        if let Some(ids) = &self.doc_ids {
            let mut found = false;
            let mut i: usize = 0;
            while i < ids.len()
                invariant
                    i <= ids@.len(),
                    found == exists|j: int| 0 <= j < i && (#[trigger] ids@[j])@ == entry.doc_id@,
                decreases ids@.len() - i,
            {
                if same_text(&ids[i], &entry.doc_id) {
                    found = true;
                }
                i += 1;
            }
            if !found {
                assert(!text::texts(ids@).contains(entry.doc_id@)) by {
                    if text::texts(ids@).contains(entry.doc_id@) {
                        let j = text::texts(ids@).index_of(entry.doc_id@);
                        assert(ids@[j]@ == entry.doc_id@);
                    }
                }
                return false;
            }
            proof {
                let j = choose|j: int| 0 <= j < i && (#[trigger] ids@[j])@ == entry.doc_id@;
                assert(text::texts(ids@)[j] == entry.doc_id@);
            }
        }
        let mut i: usize = 0;
        while i < self.metadata.len()
            invariant
                i <= self.metadata@.len(),
                self@.doc_ids matches Some(ids) ==> ids.contains(entry@.doc_id),
                forall|j: int|
                    0 <= j < i ==> json::member(
                        entry@.metadata,
                        (#[trigger] self@.metadata[j]).0,
                    ) is Some && json::alike(
                        json::member(entry@.metadata, self@.metadata[j].0)->0,
                        self@.metadata[j].1,
                    ),
            decreases self.metadata@.len() - i,
        {
            assert(self@.metadata[i as int] == (
                self.metadata@[i as int].0@,
                self.metadata@[i as int].1@,
            ));
            match find_member(&entry.metadata, &self.metadata[i].0) {
                Some(found) => {
                    if !same_json(found, &self.metadata[i].1) {
                        return false;
                    }
                },
                None => return false,
            }
            i += 1;
        }
        proof {
            assert forall|i: int| 0 <= i < self.metadata@.len() implies holds(
                json::members(entry.metadata@),
                (#[trigger] self.metadata@[i]).0@,
                self.metadata@[i].1@,
            ) by {
                let name = self.metadata@[i].0@;
                assert(self@.metadata[i] == (name, self.metadata@[i].1@));
                json::a_name_stands_for_its_first_member(entry@.metadata, name);
                let j = choose|j: int| #[trigger] json::first_named(entry@.metadata, name, j);
                assert(json::first_named(json::members(entry.metadata@), name, j));
            }
        }
        true
    }
}

/// `s` is the score of a chunk with the vector `v`, if it takes part in the
/// search and has a vector of the query's length.
pub open spec fn score_gives<K: Kernel>(
    k: K,
    query: Seq<u32>,
    v: Seq<u32>,
    keep: bool,
    s: Option<u32>,
) -> bool {
    if keep && query.len() == v.len() {
        s is Some && hlb::cosine_gives(k, query, v, s->0)
    } else {
        s is None
    }
}

/// `scores` holds the score of each chunk.
pub open spec fn scores_give<K: Kernel>(
    k: K,
    query: Seq<u32>,
    chunks: Seq<ChunkState>,
    keep: Seq<bool>,
    scores: Seq<Option<u32>>,
) -> bool {
    &&& scores.len() == chunks.len()
    &&& forall|i: int|
        0 <= i < chunks.len() ==> score_gives(
            k,
            query,
            chunks[i].embedding,
            keep[i],
            #[trigger] scores[i],
        )
}

/// Whether a score is there and not below the least one.
pub open spec fn high_enough(s: Option<u32>, least: Option<u32>) -> bool {
    &&& s is Some
    &&& least matches Some(m) ==> !score::is_nan(s->0) && !score::is_nan(m) && score::rank(s->0)
        >= score::rank(m)
}

/// The positions of the scores that are high enough.
pub open spec fn candidates(scores: Seq<Option<u32>>, least: Option<u32>) -> Seq<int>
    decreases scores.len(),
{
    if scores.len() == 0 {
        Seq::empty()
    } else {
        let before = candidates(scores.drop_last(), least);
        if high_enough(scores.last(), least) {
            before.push(scores.len() - 1)
        } else {
            before
        }
    }
}

/// The sort keys of candidates: the places of their scores.
pub open spec fn candidate_keys(scores: Seq<Option<u32>>, at: Seq<int>) -> Seq<i64> {
    at.map_values(|i: int| score::rank(scores[i]->0) as i64)
}

/// `r` holds the hits of a scan over all chunks: of those that take part and
/// score high enough the first `n`, highest score first, equal scores in the
/// order of the chunks.
pub open spec fn scan_gives<K: Kernel>(
    k: K,
    v: LibraryState,
    query: Seq<u32>,
    keep: Seq<bool>,
    least: Option<u32>,
    n: nat,
    r: Seq<HitState>,
) -> bool {
    exists|scores: Seq<Option<u32>>, at: Seq<int>|
        #![trigger scores_give(k, query, v.chunks, keep, scores), ranking::is_top(candidate_keys(scores, candidates(scores, least)), n, at)]
        {
            let found = candidates(scores, least);
            &&& scores_give(k, query, v.chunks, keep, scores)
            &&& ranking::is_top(candidate_keys(scores, found), n, at)
            &&& r == at.map_values(|p: int| hit_of(v, found[p], scores[found[p]]->0))
        }
}

/// The hits for what an index answered: the entries whose numbers are those
/// of chunks.
pub open spec fn answered(v: LibraryState, answer: Seq<(u64, u32)>) -> Seq<HitState>
    decreases answer.len(),
{
    if answer.len() == 0 {
        Seq::empty()
    } else {
        let before = answered(v, answer.drop_last());
        let (pos, score) = answer.last();
        if pos < v.chunks.len() {
            before.push(hit_of(v, pos as int, score))
        } else {
            before
        }
    }
}

/// `r` holds the hits that asking the index gives.
pub open spec fn index_gives<I: VectorIndex>(
    ix: I,
    v: LibraryState,
    query: Seq<u32>,
    n: usize,
    r: Seq<HitState>,
) -> bool {
    exists|q: Vec<u32>, answer: Vec<(u64, u32)>|
        q@ == query && #[trigger] call_ensures(I::search, (&ix, &q, n), answer) && r == answered(
            v,
            answer@,
        )
}

/// The vectors of chunks under their positions.
pub open spec fn numbered(chunks: Seq<ChunkState>) -> Seq<(u64, Seq<u32>)> {
    Seq::new(chunks.len(), |i: int| (i as u64, chunks[i].embedding))
}

/// `ix` is an index built over the chunks.
pub open spec fn built_over<I: VectorIndex>(ix: I, chunks: Seq<ChunkState>) -> bool {
    exists|before: I, items: Vec<(u64, Vec<u32>)>|
        #[trigger] call_ensures(I::rebuild, (before, items), ix) && index::entries(items@)
            == numbered(chunks)
}

/// Whether the caller's condition lets chunk number `i` take part.
pub open spec fn lets_in<F: Fn(&DocumentEntry) -> bool>(
    filter: Option<F>,
    v: LibraryState,
    i: int,
    b: bool,
) -> bool {
    match filter {
        None => b,
        Some(f) => match entry_of(v.documents, v.chunks[i].doc_id) {
            None => !b,
            Some(state) => exists|e: &DocumentEntry|
                e@ == state && #[trigger] call_ensures(f, (e,), b),
        },
    }
}

/// `keep` tells for each chunk whether the caller's condition lets it in.
pub open spec fn kept<F: Fn(&DocumentEntry) -> bool>(
    filter: Option<F>,
    v: LibraryState,
    keep: Seq<bool>,
) -> bool {
    &&& keep.len() == v.chunks.len()
    &&& forall|i: int| 0 <= i < keep.len() ==> lets_in(filter, v, i, #[trigger] keep[i])
}

/// `r` holds what a search for the vector `query` under a condition gives: the
/// answer of the index where there is one and no condition, else a scan.
pub open spec fn found_gives<K: Kernel, I: VectorIndex, F: Fn(&DocumentEntry) -> bool>(
    k: K,
    ix: Option<I>,
    v: LibraryState,
    query: Seq<u32>,
    n: usize,
    filter: Option<F>,
    r: Seq<HitState>,
) -> bool {
    if filter is None && ix is Some {
        index_gives(ix->0, v, query, n, r)
    } else {
        exists|keep: Seq<bool>| #[trigger]
            kept(filter, v, keep) && scan_gives(k, v, query, keep, None, n as nat, r)
    }
}

/// Candidates are positions of scores.
proof fn candidates_in_range(scores: Seq<Option<u32>>, least: Option<u32>)
    ensures
        candidates(scores, least).len() <= scores.len(),
        forall|i: int|
            0 <= i < candidates(scores, least).len() ==> {
                let c = #[trigger] candidates(scores, least)[i];
                0 <= c < scores.len() && high_enough(scores[c], least)
            },
    decreases scores.len(),
{
    if scores.len() > 0 {
        let init = scores.drop_last();
        candidates_in_range(init, least);
        assert forall|i: int| 0 <= i < candidates(scores, least).len() implies {
            let c = #[trigger] candidates(scores, least)[i];
            0 <= c < scores.len() && high_enough(scores[c], least)
        } by {
            if i < candidates(init, least).len() {
                let c = candidates(init, least)[i];
                assert(candidates(scores, least)[i] == c);
                assert(init[c] == scores[c]);
            }
        }
    }
}

/// `r` holds what a search for a text under a condition gives: nothing in an
/// empty store or where the encoder gives no vector.
pub open spec fn semantic_gives<
    K: Kernel,
    E: Encoder,
    I: VectorIndex,
    F: Fn(&DocumentEntry) -> bool,
>(
    k: K,
    coder: E,
    ix: Option<I>,
    v: LibraryState,
    query: Seq<char>,
    n: usize,
    filter: Option<F>,
    r: Seq<HitState>,
) -> bool {
    if v.chunks.len() == 0 {
        r.len() == 0
    } else {
        exists|vectors: Seq<Seq<u32>>| #[trigger]
            embedding::encode_query_gives(coder, seq![query], vectors) && if vectors.len() == 0 {
                r.len() == 0
            } else {
                found_gives(k, ix, v, vectors[0], n, filter, r)
            }
    }
}

/// `r` holds what a search for a vector under the conditions of a filter gives:
/// the answer of the index where there is one and no condition, else a scan.
pub open spec fn search_gives<K: Kernel, I: VectorIndex>(
    k: K,
    ix: Option<I>,
    v: LibraryState,
    query: Seq<u32>,
    n: usize,
    filter: FilterState,
    r: Seq<HitState>,
) -> bool {
    if v.chunks.len() == 0 || query.len() == 0 {
        r.len() == 0
    } else if filter.is_open() && ix is Some {
        index_gives(ix->0, v, query, n, r)
    } else {
        scan_gives(
            k,
            v,
            query,
            v.chunks.map_values(|c: ChunkState| filter.admits_chunk(v, c)),
            filter.min_score,
            n as nat,
            r,
        )
    }
}

/// What adding a document comes to: the state after it, and the number of
/// chunks that were stored.
pub open spec fn add_gives<E: Encoder>(
    coder: E,
    v: LibraryState,
    doc_id: Seq<char>,
    text: Seq<char>,
    metadata: Seq<(Seq<char>, json::Tree)>,
    now: Timestamp,
    w: LibraryState,
    r: nat,
) -> bool {
    let texts = chunking::chunks_of(chunking::blocks(text), v.chunk_size, v.chunk_overlap);
    if texts.len() == 0 {
        r == 0 && w == v.cleared(doc_id)
    } else {
        exists|vectors: Seq<Seq<u32>>| #[trigger]
            embedding::encode_gives(coder, texts, vectors) && r == new_chunks(
                doc_id,
                texts,
                vectors,
            ).len() && w == v.with(doc_id, texts, vectors, metadata, now)
    }
}

/// No search gives more hits than were asked for, and with a least score no
/// hit of a scan is below it.
pub proof fn scan_respects_limits<K: Kernel>(
    k: K,
    v: LibraryState,
    query: Seq<u32>,
    keep: Seq<bool>,
    least: Option<u32>,
    n: nat,
    r: Seq<HitState>,
)
    requires
        scan_gives(k, v, query, keep, least, n, r),
    ensures
        r.len() <= n,
        forall|i: int| 0 <= i < r.len() ==> high_enough(Some((#[trigger] r[i]).score), least),
        forall|i: int, j: int|
            0 <= i < j < r.len() ==> score::rank((#[trigger] r[i]).score) >= score::rank(
                (#[trigger] r[j]).score,
            ),
{
    let (scores, at) = choose|scores: Seq<Option<u32>>, at: Seq<int>|
        #![trigger scores_give(k, query, v.chunks, keep, scores), ranking::is_top(candidate_keys(scores, candidates(scores, least)), n, at)]
        {
            let found = candidates(scores, least);
            &&& scores_give(k, query, v.chunks, keep, scores)
            &&& ranking::is_top(candidate_keys(scores, found), n, at)
            &&& r == at.map_values(|p: int| hit_of(v, found[p], scores[found[p]]->0))
        };
    let found = candidates(scores, least);
    candidates_in_range(scores, least);
    assert forall|i: int| 0 <= i < r.len() implies high_enough(
        Some((#[trigger] r[i]).score),
        least,
    ) by {
        assert(0 <= at[i] < candidate_keys(scores, found).len());
        assert(high_enough(scores[found[at[i]]], least));
        assert(scores[found[at[i]]] == Some(r[i].score));
    }
    assert forall|i: int, j: int| 0 <= i < j < r.len() implies score::rank((#[trigger] r[i]).score)
        >= score::rank((#[trigger] r[j]).score) by {
        assert(ranking::precedes(candidate_keys(scores, found), at[i], at[j]));
        assert(0 <= at[i] < found.len() && 0 <= at[j] < found.len());
        assert(candidate_keys(scores, found)[at[i]] == score::rank(r[i].score));
        assert(candidate_keys(scores, found)[at[j]] == score::rank(r[j].score));
    }
}

/// What is left without a document is all else, in order.
proof fn without_is_the_rest(v: LibraryState, doc_id: Seq<char>)
    ensures
        chunks_without(v.chunks, doc_id) == v.chunks.filter(
            |c: ChunkState| c.doc_id != doc_id,
        ),
        documents_without(v.documents, doc_id) == v.documents.filter(
            |e: EntryState| e.doc_id != doc_id,
        ),
    decreases v.chunks.len() + v.documents.len(),
{
    reveal(Seq::filter);
    if v.chunks.len() > 0 {
        without_is_the_rest(LibraryState { chunks: v.chunks.drop_last(), ..v }, doc_id);
    } else if v.documents.len() > 0 {
        without_is_the_rest(LibraryState { documents: v.documents.drop_last(), ..v }, doc_id);
    }
}

/// Where nothing is of a document, all is the rest.
proof fn all_is_the_rest(v: LibraryState, doc_id: Seq<char>)
    requires
        v.owned(),
        !has_document(v.documents, doc_id),
    ensures
        v.chunks.filter(|c: ChunkState| c.doc_id != doc_id) == v.chunks,
        v.documents.filter(|e: EntryState| e.doc_id != doc_id) == v.documents,
{
    assert forall|i: int| 0 <= i < v.chunks.len() implies (#[trigger] v.chunks[i]).doc_id
        != doc_id by {
        assert(has_document(v.documents, v.chunks[i].doc_id));
    }
    kept_whole(v.chunks, |c: ChunkState| c.doc_id != doc_id);
    assert forall|i: int| 0 <= i < v.documents.len() implies (#[trigger] v.documents[i]).doc_id
        != doc_id by {
        if v.documents[i].doc_id == doc_id {
            assert(has_document(v.documents, doc_id));
        }
    }
    kept_whole(v.documents, |e: EntryState| e.doc_id != doc_id);
}

proof fn kept_whole<T>(s: Seq<T>, p: spec_fn(T) -> bool)
    requires
        forall|i: int| 0 <= i < s.len() ==> p(#[trigger] s[i]),
    ensures
        s.filter(p) == s,
    decreases s.len(),
{
    reveal(Seq::filter);
    if s.len() > 0 {
        let init = s.drop_last();
        assert forall|i: int| 0 <= i < init.len() implies p(#[trigger] init[i]) by {
            assert(init[i] == s[i]);
        }
        kept_whole(init, p);
        assert(p(s[s.len() - 1]));
        assert(init.push(s.last()) =~= s);
    }
}

/// Making room for a document leaves the chunks and the documents of others.
pub proof fn others_stay(v: LibraryState, doc_id: Seq<char>, c: ChunkState, other: Seq<char>)
    requires
        c.doc_id != doc_id,
        other != doc_id,
    ensures
        v.chunks.contains(c) ==> v.cleared(doc_id).chunks.contains(c),
        has_document(v.documents, other) ==> has_document(v.cleared(doc_id).documents, other),
{
    without_is_the_rest(v, doc_id);
    if v.chunks.contains(c) {
        let keep = |x: ChunkState| x.doc_id != doc_id;
        let i = v.chunks.index_of(c);
        v.chunks.filter_lemma(keep);
        assert(keep(v.chunks[i]));
        assert(v.chunks.filter(keep).contains(c));
    }
    if has_document(v.documents, other) {
        let keep = |x: EntryState| x.doc_id != doc_id;
        let i = choose|i: int|
            0 <= i < v.documents.len() && (#[trigger] v.documents[i]).doc_id == other;
        v.documents.filter_lemma(keep);
        assert(keep(v.documents[i]));
        let left = v.documents.filter(keep);
        assert(left.contains(v.documents[i]));
        let e = left.index_of(v.documents[i]);
        assert(left[e].doc_id == other);
    }
}

/// A document that was added is held in place of one with its id, behind all
/// others: its entry has the metadata, the number of its texts and the time. Its
/// chunks hold the beginnings of the texts that it is cut into, five hundred
/// characters at most, each with the vector that the encoder gave for the whole
/// text, under the id made of the document's and the chunk's number. What is held
/// of other documents stays, in order.
pub proof fn an_added_document_is_held<E: Encoder>(
    coder: E,
    v: LibraryState,
    doc_id: Seq<char>,
    text: Seq<char>,
    metadata: Seq<(Seq<char>, json::Tree)>,
    now: Timestamp,
    w: LibraryState,
    r: nat,
) -> (vectors: Seq<Seq<u32>>)
    requires
        v.owned(),
        add_gives(coder, v, doc_id, text, metadata, now, w, r),
        chunking::chunks_of(chunking::blocks(text), v.chunk_size, v.chunk_overlap).len() > 0,
    ensures
        ({
            let texts = chunking::chunks_of(
                chunking::blocks(text),
                v.chunk_size,
                v.chunk_overlap,
            );
            &&& embedding::encode_gives(coder, texts, vectors)
            &&& r <= texts.len() && r <= vectors.len()
            &&& r == texts.len() || r == vectors.len()
            &&& w.documents == v.documents.filter(|e: EntryState| e.doc_id != doc_id).push(
                EntryState { doc_id, metadata, n_chunks: texts.len(), added: now },
            )
            &&& w.chunks.len() >= r
            &&& w.chunks.take(w.chunks.len() - r) == v.chunks.filter(
                |c: ChunkState| c.doc_id != doc_id,
            )
            &&& forall|i: int|
                0 <= i < r ==> {
                    let c = #[trigger] w.chunks[w.chunks.len() - r + i];
                    &&& c.doc_id == doc_id
                    &&& c.id == doc_id + "#chunk_"@ + text::decimal(i as nat)
                    &&& c.idx == i
                    &&& c.embedding == vectors[i]
                    &&& c.text.len() == (if texts[i].len() < 500 {
                        texts[i].len()
                    } else {
                        500
                    })
                    &&& c.text == texts[i].take(c.text.len() as int)
                }
        }),
        w.chunk_size == v.chunk_size,
        w.chunk_overlap == v.chunk_overlap,
{
    let texts = chunking::chunks_of(chunking::blocks(text), v.chunk_size, v.chunk_overlap);
    let vectors = choose|vectors: Seq<Seq<u32>>| #[trigger]
        embedding::encode_gives(coder, texts, vectors) && r == new_chunks(
            doc_id,
            texts,
            vectors,
        ).len() && w == v.with(doc_id, texts, vectors, metadata, now);
    without_is_the_rest(v, doc_id);
    if !has_document(v.documents, doc_id) {
        all_is_the_rest(v, doc_id);
    }
    let base = v.cleared(doc_id);
    let fresh = new_chunks(doc_id, texts, vectors);
    assert(w.chunks.take(w.chunks.len() - r) =~= base.chunks);
    assert forall|i: int| 0 <= i < r implies {
        let c = #[trigger] w.chunks[w.chunks.len() - r + i];
        &&& c == fresh[i]
        &&& c.text.len() == (if texts[i].len() < 500 {
            texts[i].len()
        } else {
            500
        })
        &&& c.text == texts[i].take(c.text.len() as int)
    } by {
        assert(w.chunks[w.chunks.len() - r + i] == fresh[i]);
    }
    vectors
}

/// Candidates are all the positions of scores that are high enough, in order.
proof fn candidates_are_all(scores: Seq<Option<u32>>, least: Option<u32>)
    ensures
        forall|i: int, j: int|
            0 <= i < j < candidates(scores, least).len() ==> #[trigger] candidates(scores, least)[i]
                < #[trigger] candidates(scores, least)[j],
        forall|c: int|
            0 <= c < scores.len() && high_enough(#[trigger] scores[c], least) ==> candidates(
                scores,
                least,
            ).contains(c),
    decreases scores.len(),
{
    if scores.len() > 0 {
        let init = scores.drop_last();
        let before = candidates(init, least);
        let all = candidates(scores, least);
        candidates_are_all(init, least);
        candidates_in_range(init, least);
        assert forall|i: int, j: int| 0 <= i < j < all.len() implies #[trigger] all[i]
            < #[trigger] all[j] by {
            assert(all[i] == before[i]);
            if j < before.len() {
                assert(all[j] == before[j]);
            }
        }
        assert forall|c: int|
            0 <= c < scores.len() && high_enough(#[trigger] scores[c], least) implies all.contains(
            c,
        ) by {
            if c < init.len() {
                assert(init[c] == scores[c]);
                let i = before.index_of(c);
                assert(all[i] == c);
            } else {
                assert(all[before.len() as int] == c);
            }
        }
    }
}

/// The chunks that the hits of a scan stand for, with the scores of all chunks.
proof fn scanned<K: Kernel>(
    k: K,
    v: LibraryState,
    query: Seq<u32>,
    keep: Seq<bool>,
    least: Option<u32>,
    n: nat,
    r: Seq<HitState>,
) -> (found: (Seq<Option<u32>>, Seq<int>))
    requires
        scan_gives(k, v, query, keep, least, n, r),
    ensures
        scores_give(k, query, v.chunks, keep, found.0),
        found.1.len() == r.len(),
        r.len() <= n,
        forall|h: int|
            0 <= h < r.len() ==> {
                let c = #[trigger] found.1[h];
                &&& 0 <= c < v.chunks.len()
                &&& high_enough(found.0[c], least)
                &&& r[h] == hit_of(v, c, found.0[c]->0)
            },
        forall|h: int, g: int|
            0 <= h < g < r.len() ==> {
                let a = #[trigger] found.1[h];
                let b = #[trigger] found.1[g];
                ||| score::rank(r[h].score) > score::rank(r[g].score)
                ||| score::rank(r[h].score) == score::rank(r[g].score) && a < b
            },
        forall|c: int|
            0 <= c < v.chunks.len() && high_enough(#[trigger] found.0[c], least)
                && !found.1.contains(c) ==> r.len() == n && forall|h: int|
                0 <= h < r.len() ==> score::rank((#[trigger] r[h]).score) >= score::rank(
                    found.0[c]->0,
                ),
{
    let (scores, at) = choose|scores: Seq<Option<u32>>, at: Seq<int>|
        #![trigger scores_give(k, query, v.chunks, keep, scores), ranking::is_top(candidate_keys(scores, candidates(scores, least)), n, at)]
        {
            let found = candidates(scores, least);
            &&& scores_give(k, query, v.chunks, keep, scores)
            &&& ranking::is_top(candidate_keys(scores, found), n, at)
            &&& r == at.map_values(|p: int| hit_of(v, found[p], scores[found[p]]->0))
        };
    let found = candidates(scores, least);
    let keys = candidate_keys(scores, found);
    let places = at.map_values(|p: int| found[p]);
    candidates_in_range(scores, least);
    candidates_are_all(scores, least);
    assert forall|h: int| 0 <= h < r.len() implies {
        let c = #[trigger] places[h];
        &&& 0 <= c < v.chunks.len()
        &&& high_enough(scores[c], least)
        &&& r[h] == hit_of(v, c, scores[c]->0)
        &&& keys[at[h]] == score::rank(r[h].score)
    } by {
        assert(0 <= at[h] < keys.len());
        assert(places[h] == found[at[h]]);
    }
    assert forall|h: int, g: int| 0 <= h < g < r.len() implies {
        let a = #[trigger] places[h];
        let b = #[trigger] places[g];
        ||| score::rank(r[h].score) > score::rank(r[g].score)
        ||| score::rank(r[h].score) == score::rank(r[g].score) && a < b
    } by {
        assert(ranking::precedes(keys, at[h], at[g]));
        assert(0 <= at[h] < keys.len() && 0 <= at[g] < keys.len());
    }
    assert forall|c: int|
        0 <= c < v.chunks.len() && high_enough(#[trigger] scores[c], least) && !places.contains(
            c,
        ) implies r.len() == n && forall|h: int|
        0 <= h < r.len() ==> score::rank((#[trigger] r[h]).score) >= score::rank(scores[c]->0) by {
        let j = found.index_of(c);
        assert(found[j] == c);
        assert(keys[j] == score::rank(scores[c]->0));
        if at.contains(j) {
            let h = at.index_of(j);
            assert(places[h] == c);
        }
        if r.len() < n {
            ranking::everything_listed(keys, n, at, j);
        }
        assert forall|h: int| 0 <= h < r.len() implies score::rank((#[trigger] r[h]).score)
            >= score::rank(scores[c]->0) by {
            assert(ranking::precedes(keys, at[h], j));
            assert(places[h] == found[at[h]]);
        }
    }
    (scores, places)
}

/// Metadata holds a value under a name: the first member with the name has an
/// equal one.
pub open spec fn holds(
    metadata: Seq<(Seq<char>, json::Tree)>,
    name: Seq<char>,
    value: json::Tree,
) -> bool {
    exists|j: int| #[trigger]
        json::first_named(metadata, name, j) && json::alike(metadata[j].1, value)
}

/// The metadata that a hit shows is that of the document that it belongs to.
proof fn entry_among(v: LibraryState, doc_id: Seq<char>) -> (e: int)
    requires
        has_document(v.documents, doc_id),
    ensures
        0 <= e < v.documents.len(),
        v.documents[e].doc_id == doc_id,
        entry_of(v.documents, doc_id) == Some(v.documents[e]),
        v.metadata_of(doc_id) == v.documents[e].metadata,
{
    entry_means_document(v.documents, doc_id);
    let entry = entry_of(v.documents, doc_id)->0;
    v.documents.index_of(entry)
}

/// Every hit of a search is a chunk of the store, shown with its own id, text
/// and document. Under a filter that document is known, the hit shows its
/// metadata, and each condition of the filter holds of the hit: the metadata
/// holds an equal value for each single member of the filter, the document is
/// one of the listed ones, the text holds the wanted part in any case, and the
/// score is not below the least one.
pub proof fn every_hit_meets_every_condition<K: Kernel, I: VectorIndex>(
    k: K,
    ix: Option<I>,
    v: LibraryState,
    query: Seq<u32>,
    n: usize,
    filter: FilterState,
    r: Seq<HitState>,
    h: int,
) -> (c: int)
    requires
        search_gives(k, ix, v, query, n, filter, r),
        0 <= h < r.len(),
    ensures
        0 <= c < v.chunks.len(),
        r[h].chunk_id == v.chunks[c].id,
        r[h].doc_id == v.chunks[c].doc_id,
        r[h].text == v.chunks[c].text,
        forall|i: int|
            0 <= i < filter.metadata.len() ==> holds(
                r[h].metadata,
                (#[trigger] filter.metadata[i]).0,
                filter.metadata[i].1,
            ),
        filter.metadata.len() > 0 || filter.contains_text is Some || filter.min_score is Some
            || filter.doc_ids is Some || ix is None ==> {
            &&& exists|e: int|
                0 <= e < v.documents.len() && (#[trigger] v.documents[e]).doc_id == r[h].doc_id
                    && v.documents[e].metadata == r[h].metadata
            &&& v.chunks[c].embedding.len() == query.len()
            &&& hlb::cosine_gives(k, query, v.chunks[c].embedding, r[h].score)
            &&& r.len() <= n
        },
        filter.doc_ids matches Some(ids) ==> exists|j: int|
            0 <= j < ids.len() && #[trigger] ids[j] == r[h].doc_id,
        filter.contains_text matches Some(part) ==> exists|at: int|
            0 <= at && at + text::lowered(part).len() <= text::lowered(r[h].text).len()
                && #[trigger] text::lowered(r[h].text).subrange(
                at,
                at + text::lowered(part).len(),
            ) == text::lowered(part),
        filter.min_score matches Some(m) ==> !score::is_nan(r[h].score) && !score::is_nan(m)
            && score::rank(r[h].score) >= score::rank(m),
{
    if filter.is_open() && ix is Some {
        let (q, answer) = choose|q: Vec<u32>, answer: Vec<(u64, u32)>|
            q@ == query && #[trigger] call_ensures(I::search, (&ix->0, &q, n), answer) && r
                == answered(v, answer@);
        answered_are_chunks(v, answer@, h)
    } else {
        let keep = v.chunks.map_values(|c: ChunkState| filter.admits_chunk(v, c));
        let (scores, at) = scanned(k, v, query, keep, filter.min_score, n as nat, r);
        let c = at[h];
        assert(score_gives(k, query, v.chunks[c].embedding, keep[c], scores[c]));
        assert(filter.admits_chunk(v, v.chunks[c]));
        entry_means_document(v.documents, v.chunks[c].doc_id);
        let e = entry_among(v, v.chunks[c].doc_id);
        assert forall|i: int| 0 <= i < filter.metadata.len() implies holds(
            r[h].metadata,
            (#[trigger] filter.metadata[i]).0,
            filter.metadata[i].1,
        ) by {
            let name = filter.metadata[i].0;
            json::a_name_stands_for_its_first_member(r[h].metadata, name);
            let j = choose|j: int| #[trigger] json::first_named(r[h].metadata, name, j);
            assert(json::first_named(r[h].metadata, name, j));
        }
        if let Some(ids) = filter.doc_ids {
            let j = ids.index_of(r[h].doc_id);
            assert(ids[j] == r[h].doc_id);
        }
        if let Some(part) = filter.contains_text {
            let at = choose|at: int|
                text::occurs_at(text::lowered(r[h].text), text::lowered(part), at);
            assert(text::lowered(r[h].text).subrange(at, at + text::lowered(part).len())
                == text::lowered(part));
        }
        c
    }
}

/// The hits for what an index answered are chunks.
proof fn answered_are_chunks(v: LibraryState, answer: Seq<(u64, u32)>, h: int) -> (c: int)
    requires
        0 <= h < answered(v, answer).len(),
    ensures
        0 <= c < v.chunks.len(),
        exists|a: int|
            0 <= a < answer.len() && (#[trigger] answer[a]).0 == c && answered(v, answer)[h]
                == hit_of(v, c, answer[a].1),
    decreases answer.len(),
{
    let init = answer.drop_last();
    let before = answered(v, init);
    if h < before.len() {
        let c = answered_are_chunks(v, init, h);
        let a = choose|a: int|
            0 <= a < init.len() && (#[trigger] init[a]).0 == c && before[h] == hit_of(
                v,
                c,
                init[a].1,
            );
        assert(answer[a] == init[a]);
        c
    } else {
        assert(answer[answer.len() - 1] == answer.last());
        answer.last().0 as int
    }
}

/// What an index answers becomes hits: those answers whose number is that of a
/// chunk, in order, each with that chunk and the score that was answered; others
/// are passed over.
pub proof fn answers_become_hits(v: LibraryState, answer: Seq<(u64, u32)>) -> (at: Seq<int>)
    ensures
        at.len() == answered(v, answer).len(),
        forall|h: int, g: int| 0 <= h < g < at.len() ==> at[h] < at[g],
        forall|a: int|
            0 <= a < answer.len() ==> ((#[trigger] answer[a]).0 < v.chunks.len() <==> at.contains(
                a,
            )),
        forall|h: int|
            0 <= h < at.len() ==> {
                let a = #[trigger] at[h];
                let c = v.chunks[answer[a].0 as int];
                let r = answered(v, answer)[h];
                &&& 0 <= a < answer.len()
                &&& r.chunk_id == c.id
                &&& r.doc_id == c.doc_id
                &&& r.text == c.text
                &&& r.score == answer[a].1
                &&& r.metadata == v.metadata_of(c.doc_id)
            },
    decreases answer.len(),
{
    if answer.len() == 0 {
        Seq::empty()
    } else {
        let init = answer.drop_last();
        let last = answer.len() - 1;
        let before = answers_become_hits(v, init);
        let at = if answer[last].0 < v.chunks.len() {
            before.push(last)
        } else {
            before
        };
        assert forall|a: int| 0 <= a < answer.len() implies ((#[trigger] answer[a]).0
            < v.chunks.len() <==> at.contains(a)) by {
            if a < last {
                assert(init[a] == answer[a]);
                if before.contains(a) {
                    let h = before.index_of(a);
                    assert(at[h] == a);
                }
                if at.contains(a) {
                    let h = at.index_of(a);
                    assert(before[h] == a);
                }
            } else {
                if answer[last].0 < v.chunks.len() {
                    assert(at[before.len() as int] == a);
                } else if at.contains(a) {
                    let h = at.index_of(a);
                    assert(before[h] == last);
                }
            }
        }
        assert forall|h: int| 0 <= h < at.len() implies {
            let a = #[trigger] at[h];
            let c = v.chunks[answer[a].0 as int];
            let r = answered(v, answer)[h];
            &&& 0 <= a < answer.len()
            &&& r.chunk_id == c.id
            &&& r.doc_id == c.doc_id
            &&& r.text == c.text
            &&& r.score == answer[a].1
            &&& r.metadata == v.metadata_of(c.doc_id)
        } by {
            if h < before.len() {
                assert(at[h] == before[h]);
                assert(init[before[h]] == answer[before[h]]);
                assert(answered(v, answer)[h] == answered(v, init)[h]);
            }
        }
        assert forall|h: int, g: int| 0 <= h < g < at.len() implies at[h] < at[g] by {
            assert(at[h] == before[h]);
            if g < before.len() {
                assert(at[g] == before[g]);
            }
        }
        at
    }
}

/// An index is built over the vectors of all chunks, each under its chunk's
/// position.
pub proof fn an_index_knows_chunks_by_position(chunks: Seq<ChunkState>, i: int)
    requires
        0 <= i < chunks.len() <= u64::MAX,
    ensures
        numbered(chunks).len() == chunks.len(),
        numbered(chunks)[i].0 == i,
        numbered(chunks)[i].1 == chunks[i].embedding,
{
}

/// No fitting chunk is missed: one whose vector is as long as the query, whose
/// document meets every condition of the filter, and whose text holds the wanted
/// part, has a cosine as its score; unless that is below the least score, the
/// chunk is among the hits, or as many hits as were asked for score no less.
pub proof fn no_fitting_chunk_is_missed<K: Kernel, I: VectorIndex>(
    k: K,
    ix: Option<I>,
    v: LibraryState,
    query: Seq<u32>,
    n: usize,
    filter: FilterState,
    r: Seq<HitState>,
    c: int,
    e: int,
) -> (s: u32)
    requires
        search_gives(k, ix, v, query, n, filter, r),
        v.valid(),
        filter.metadata.len() > 0 || filter.contains_text is Some || filter.min_score is Some
            || filter.doc_ids is Some || ix is None,
        query.len() > 0,
        0 <= c < v.chunks.len(),
        v.chunks[c].embedding.len() == query.len(),
        0 <= e < v.documents.len(),
        v.documents[e].doc_id == v.chunks[c].doc_id,
        forall|i: int|
            0 <= i < filter.metadata.len() ==> holds(
                v.documents[e].metadata,
                (#[trigger] filter.metadata[i]).0,
                filter.metadata[i].1,
            ),
        filter.doc_ids matches Some(ids) ==> ids.contains(v.documents[e].doc_id),
        filter.contains_text matches Some(part) ==> text::has_part(
            text::lowered(v.chunks[c].text),
            text::lowered(part),
        ),
    ensures
        hlb::cosine_gives(k, query, v.chunks[c].embedding, s),
        ({
            ||| filter.min_score matches Some(m) && (score::is_nan(s) || score::is_nan(m)
                || score::rank(s) < score::rank(m))
            ||| exists|h: int|
                0 <= h < r.len() && #[trigger] r[h] == (HitState {
                    chunk_id: v.chunks[c].id,
                    doc_id: v.chunks[c].doc_id,
                    score: s,
                    text: v.chunks[c].text,
                    metadata: v.documents[e].metadata,
                })
            ||| r.len() == n && forall|h: int|
                0 <= h < r.len() ==> score::rank((#[trigger] r[h]).score) >= score::rank(s)
        }),
{
    let keep = v.chunks.map_values(|c: ChunkState| filter.admits_chunk(v, c));
    let (scores, at) = scanned(k, v, query, keep, filter.min_score, n as nat, r);
    let chunk = v.chunks[c];
    assert(has_document(v.documents, chunk.doc_id));
    let f = entry_among(v, chunk.doc_id);
    assert(f == e) by {
        if f != e {
            assert(v.documents[f].doc_id == v.documents[e].doc_id);
        }
    }
    assert(filter.admits(v.documents[e])) by {
        assert forall|i: int| 0 <= i < filter.metadata.len() implies json::member(
            v.documents[e].metadata,
            (#[trigger] filter.metadata[i]).0,
        ) is Some && json::alike(
            json::member(v.documents[e].metadata, filter.metadata[i].0)->0,
            filter.metadata[i].1,
        ) by {
            json::a_name_stands_for_its_first_member(
                v.documents[e].metadata,
                filter.metadata[i].0,
            );
            assert(holds(v.documents[e].metadata, filter.metadata[i].0, filter.metadata[i].1));
        }
    }
    assert(filter.admits_chunk(v, chunk));
    assert(score_gives(k, query, chunk.embedding, keep[c], scores[c]));
    let s = scores[c]->0;
    if high_enough(scores[c], filter.min_score) {
        if at.contains(c) {
            let h = at.index_of(c);
            assert(at[h] == c);
            assert(r[h] == hit_of(v, c, s));
        }
    }
    s
}

/// Adding a member to a filter never adds a hit: where all that fits is asked
/// for, every chunk found with the added member is found without it. The kernel
/// gives one cosine for two vectors.
pub proof fn an_added_member_adds_no_hit<K: Kernel, I: VectorIndex>(
    k: K,
    ix: Option<I>,
    v: LibraryState,
    query: Seq<u32>,
    n: usize,
    filter: FilterState,
    added: (Seq<char>, json::Tree),
    narrow: Seq<HitState>,
    wide: Seq<HitState>,
    h: int,
) -> (g: int)
    requires
        v.valid(),
        query.len() > 0,
        v.chunks.len() <= n,
        filter.metadata.len() > 0 || filter.contains_text is Some || filter.min_score is Some
            || filter.doc_ids is Some || ix is None,
        forall|x: Seq<u32>, s: u32, t: u32|
            #[trigger] hlb::cosine_gives(k, query, x, s) && #[trigger] hlb::cosine_gives(
                k,
                query,
                x,
                t,
            ) ==> s == t,
        search_gives(
            k,
            ix,
            v,
            query,
            n,
            (FilterState { metadata: filter.metadata.push(added), ..filter }),
            narrow,
        ),
        search_gives(k, ix, v, query, n, filter, wide),
        0 <= h < narrow.len(),
    ensures
        0 <= g < wide.len(),
        wide[g] == narrow[h],
{
    let more = FilterState { metadata: filter.metadata.push(added), ..filter };
    let c = every_hit_meets_every_condition(k, ix, v, query, n, more, narrow, h);
    assert(more.metadata.len() > 0);
    let e = choose|e: int|
        0 <= e < v.documents.len() && (#[trigger] v.documents[e]).doc_id == narrow[h].doc_id
            && v.documents[e].metadata == narrow[h].metadata;
    assert forall|i: int| 0 <= i < filter.metadata.len() implies holds(
        v.documents[e].metadata,
        (#[trigger] filter.metadata[i]).0,
        filter.metadata[i].1,
    ) by {
        assert(more.metadata[i] == filter.metadata[i]);
        assert(holds(narrow[h].metadata, more.metadata[i].0, more.metadata[i].1));
    }
    if let Some(part) = filter.contains_text {
        let at = choose|at: int|
            0 <= at && at + text::lowered(part).len() <= text::lowered(narrow[h].text).len()
                && #[trigger] text::lowered(narrow[h].text).subrange(
                at,
                at + text::lowered(part).len(),
            ) == text::lowered(part);
        assert(text::occurs_at(text::lowered(narrow[h].text), text::lowered(part), at));
    }
    let keep = v.chunks.map_values(|c: ChunkState| filter.admits_chunk(v, c));
    let (scores, at) = scanned(k, v, query, keep, filter.min_score, n as nat, wide);
    let f = entry_among(v, v.chunks[c].doc_id);
    assert(f == e) by {
        if f != e {
            assert(v.documents[f].doc_id == v.documents[e].doc_id);
        }
    }
    assert(filter.admits(v.documents[e])) by {
        assert forall|i: int| 0 <= i < filter.metadata.len() implies json::member(
            v.documents[e].metadata,
            (#[trigger] filter.metadata[i]).0,
        ) is Some && json::alike(
            json::member(v.documents[e].metadata, filter.metadata[i].0)->0,
            filter.metadata[i].1,
        ) by {
            json::a_name_stands_for_its_first_member(
                v.documents[e].metadata,
                filter.metadata[i].0,
            );
            assert(holds(v.documents[e].metadata, filter.metadata[i].0, filter.metadata[i].1));
        }
    }
    assert(filter.admits_chunk(v, v.chunks[c]));
    assert(score_gives(k, query, v.chunks[c].embedding, keep[c], scores[c]));
    assert(scores[c] == Some(narrow[h].score));
    if !at.contains(c) {
        let all = at.push(c);
        assert forall|a: int| 0 <= a < all.len() implies 0 <= #[trigger] all[a]
            < v.chunks.len() by {
            if a < at.len() {
                assert(all[a] == at[a]);
            }
        }
        assert forall|a: int, b: int| 0 <= a < b < all.len() implies all[a] != all[b] by {
            if b < at.len() {
                if at[a] == at[b] {
                    assert(wide[a] == wide[b]);
                }
            } else {
                assert(at.contains(at[a]));
            }
        }
        ranking::distinct_positions_fit(all, v.chunks.len());
    }
    let g = at.index_of(c);
    assert(wide[g] == hit_of(v, c, scores[c]->0));
    g
}

/// Every hit of a search by a text under the caller's condition is a chunk of a
/// known document for which the condition holds, shown with its own id and text
/// and the document's metadata. The text is encoded the way that texts searched
/// for are, and the score is a cosine of its vector and the chunk's.
pub proof fn every_hit_passes_the_condition<
    K: Kernel,
    E: Encoder,
    I: VectorIndex,
    F: Fn(&DocumentEntry) -> bool,
>(
    k: K,
    coder: E,
    ix: Option<I>,
    v: LibraryState,
    query: Seq<char>,
    n: usize,
    f: F,
    r: Seq<HitState>,
    h: int,
) -> (found: (Seq<Seq<u32>>, int))
    requires
        semantic_gives(k, coder, ix, v, query, n, Some(f), r),
        0 <= h < r.len(),
    ensures
        embedding::encode_query_gives(coder, seq![query], found.0),
        found.0.len() > 0,
        0 <= found.1 < v.chunks.len(),
        ({
            let c = v.chunks[found.1];
            &&& r[h].chunk_id == c.id
            &&& r[h].doc_id == c.doc_id
            &&& r[h].text == c.text
            &&& c.embedding.len() == found.0[0].len()
            &&& hlb::cosine_gives(k, found.0[0], c.embedding, r[h].score)
        }),
        exists|e: &DocumentEntry|
            #![trigger call_ensures(f, (e,), true)]
            call_ensures(f, (e,), true) && v.documents.contains(e@) && e@.doc_id == r[h].doc_id
                && e@.metadata == r[h].metadata,
        r.len() <= n,
{
    let vectors = choose|vectors: Seq<Seq<u32>>| #[trigger]
        embedding::encode_query_gives(coder, seq![query], vectors) && if vectors.len() == 0 {
            r.len() == 0
        } else {
            found_gives(k, ix, v, vectors[0], n, Some(f), r)
        };
    let keep = choose|keep: Seq<bool>| #[trigger]
        kept(Some(f), v, keep) && scan_gives(k, v, vectors[0], keep, None, n as nat, r);
    let (scores, at) = scanned(k, v, vectors[0], keep, None, n as nat, r);
    let c = at[h];
    assert(score_gives(k, vectors[0], v.chunks[c].embedding, keep[c], scores[c]));
    assert(lets_in(Some(f), v, c, keep[c]));
    let state = entry_of(v.documents, v.chunks[c].doc_id)->0;
    entry_means_document(v.documents, v.chunks[c].doc_id);
    let e = choose|e: &DocumentEntry| e@ == state && #[trigger] call_ensures(f, (e,), true);
    assert(call_ensures(f, (e,), true));
    (vectors, c)
}

/// A search by a text misses no chunk without an index and a condition: one whose
/// vector is as long as that of the text has a cosine as its score, and is among
/// the hits with it, or as many hits as were asked for score no less. Where the
/// encoder gives no vector, nothing is found.
pub proof fn no_chunk_is_missed_by_a_text<
    K: Kernel,
    E: Encoder,
    I: VectorIndex,
    F: Fn(&DocumentEntry) -> bool,
>(
    k: K,
    coder: E,
    v: LibraryState,
    query: Seq<char>,
    n: usize,
    r: Seq<HitState>,
    c: int,
) -> (vectors: Seq<Seq<u32>>)
    requires
        semantic_gives(k, coder, None::<I>, v, query, n, None::<F>, r),
        0 <= c < v.chunks.len(),
    ensures
        embedding::encode_query_gives(coder, seq![query], vectors),
        vectors.len() == 0 ==> r.len() == 0,
        vectors.len() > 0 && v.chunks[c].embedding.len() == vectors[0].len() ==> exists|s: u32|
            #[trigger] hlb::cosine_gives(k, vectors[0], v.chunks[c].embedding, s) && is_found(
                v.chunks[c],
                s,
                n,
                r,
            ),
{
    let vectors = choose|vectors: Seq<Seq<u32>>| #[trigger]
        embedding::encode_query_gives(coder, seq![query], vectors) && if vectors.len() == 0 {
            r.len() == 0
        } else {
            found_gives(k, None::<I>, v, vectors[0], n, None::<F>, r)
        };
    if vectors.len() > 0 && v.chunks[c].embedding.len() == vectors[0].len() {
        let keep = choose|keep: Seq<bool>| #[trigger]
            kept(None::<F>, v, keep) && scan_gives(k, v, vectors[0], keep, None, n as nat, r);
        let (scores, at) = scanned(k, v, vectors[0], keep, None, n as nat, r);
        assert(lets_in(None::<F>, v, c, keep[c]));
        assert(score_gives(k, vectors[0], v.chunks[c].embedding, keep[c], scores[c]));
        let s = scores[c]->0;
        assert(high_enough(scores[c], None));
        if at.contains(c) {
            let h = at.index_of(c);
            assert(at[h] == c);
            assert(r[h] == hit_of(v, c, s));
        }
        assert(is_found(v.chunks[c], s, n, r));
    }
    vectors
}

/// A chunk with a score is among hits, or there are as many as were asked for and
/// all score no less.
pub open spec fn is_found(c: ChunkState, s: u32, n: usize, r: Seq<HitState>) -> bool {
    ||| exists|h: int|
        0 <= h < r.len() && (#[trigger] r[h]).chunk_id == c.id && r[h].doc_id == c.doc_id
            && r[h].text == c.text && r[h].score == s
    ||| r.len() == n && forall|h: int|
        0 <= h < r.len() ==> score::rank((#[trigger] r[h]).score) >= score::rank(s)
}

// ---------------------------------------------------------------------
// The store at work
// ---------------------------------------------------------------------

/// A store of documents.
pub struct DocumentMemory<K, E, I> {
    kernel: Arc<K>,
    encoder: E,
    documents: Vec<DocumentEntry>,
    chunks: Vec<Chunk>,
    chunk_size: usize,
    chunk_overlap: usize,
    ann: Option<I>,
}

impl<K, E, I> View for DocumentMemory<K, E, I> {
    type V = LibraryState;

    closed spec fn view(&self) -> LibraryState {
        LibraryState {
            documents: self.documents@.map_values(|e: DocumentEntry| e@),
            chunks: self.chunks@.map_values(|c: Chunk| c@),
            chunk_size: self.chunk_size as nat,
            chunk_overlap: self.chunk_overlap as nat,
        }
    }
}

/// A chunk overlap cut to less than the chunk size.
pub open spec fn bounded_overlap(size: nat, overlap: nat) -> nat {
    if size == 0 {
        0
    } else if overlap < size {
        overlap
    } else {
        (size - 1) as nat
    }
}

/// An overlap below the size stays; a greater one is cut to one less than the
/// size, so that every chunk brings something new.
pub proof fn an_overlap_stays_below_the_size(size: nat, overlap: nat)
    ensures
        size > 0 ==> bounded_overlap(size, overlap) < size,
        overlap < size ==> bounded_overlap(size, overlap) == overlap,
        0 < size <= overlap ==> bounded_overlap(size, overlap) + 1 == size,
        size == 0 ==> bounded_overlap(size, overlap) == 0,
{
}

impl<K: Kernel, E: Encoder, I: VectorIndex> DocumentMemory<K, E, I> {
    /// The kernel that computes for this store.
    pub closed spec fn arithmetic(&self) -> K {
        *self.kernel
    }

    /// The encoder of this store.
    pub closed spec fn coder(&self) -> E {
        self.encoder
    }

    /// The index of this store, if it has one.
    pub closed spec fn finder(&self) -> Option<I> {
        self.ann
    }

    /// The state is valid, and an index is one that was built over the chunks
    /// as they are.
    pub open spec fn wf(&self) -> bool {
        &&& self@.valid()
        &&& self.finder() matches Some(ix) ==> built_over(ix, self@.chunks)
    }

    /// Same kernel and encoder, and an index if and only if there was one.
    pub open spec fn same_parts(&self, other: &Self) -> bool {
        &&& self.arithmetic() == other.arithmetic()
        &&& self.coder() == other.coder()
        &&& self.finder() is Some <==> other.finder() is Some
    }

    /// A store without documents.
    pub fn new(kernel: Arc<K>, encoder: E) -> (r: Self)
        ensures
            r.wf(),
            r.arithmetic() == *kernel,
            r.coder() == encoder,
            r.finder() is None,
            r@ == (LibraryState {
                documents: Seq::empty(),
                chunks: Seq::empty(),
                chunk_size: DEFAULT_CHUNK_SIZE as nat,
                chunk_overlap: DEFAULT_CHUNK_OVERLAP as nat,
            }),
            r@.chunk_size == 200,
            r@.chunk_overlap == 20,
            r@.owned(),
    {
        let r = DocumentMemory {
            kernel,
            encoder,
            documents: Vec::new(),
            chunks: Vec::new(),
            chunk_size: DEFAULT_CHUNK_SIZE,
            chunk_overlap: DEFAULT_CHUNK_OVERLAP,
            ann: None,
        };
        assert(r@.documents =~= Seq::empty());
        assert(r@.chunks =~= Seq::empty());
        r
    }

    /// The store with another chunk size and overlap. The overlap is cut to
    /// less than the size.
    pub fn with_chunking(self, size: usize, overlap: usize) -> (r: Self)
        requires
            self.wf(),
        ensures
            r.wf(),
            r.arithmetic() == self.arithmetic(),
            r.coder() == self.coder(),
            r.finder() == self.finder(),
            r@ == (LibraryState {
                chunk_size: size as nat,
                chunk_overlap: bounded_overlap(size as nat, overlap as nat),
                ..self@
            }),
    {
        let most: usize = if size == 0 {
            0
        } else {
            size - 1
        };
        let r = DocumentMemory {
            chunk_size: size,
            chunk_overlap: if overlap < most {
                overlap
            } else {
                most
            },
            ..self
        };
        assert(r@.documents =~= self@.documents);
        assert(r@.chunks =~= self@.chunks);
        r
    }

    /// The store with an index over its chunks.
    pub fn with_ann(self, index: I) -> (r: Self)
        requires
            self.wf(),
        ensures
            r.wf(),
            r.arithmetic() == self.arithmetic(),
            r.coder() == self.coder(),
            r.finder() is Some,
            r@ == self@,
    {
        let mut r = DocumentMemory { ann: Some(index), ..self };
        assert(r@ =~= self@);
        r.rebuild_ann();
        r
    }

    /// Builds the index, if there is one, over the chunks as they are.
    fn rebuild_ann(&mut self)
        requires
            old(self)@.valid(),
        ensures
            final(self).wf(),
            final(self)@ == old(self)@,
            final(self).same_parts(&*old(self)),
    {
        let ghost start = *self;
        if let Some(ix) = self.ann.take() {
            let n = self.chunks.len();
            let mut items: Vec<(u64, Vec<u32>)> = Vec::with_capacity(n);
            let mut i: usize = 0;
            while i < n
                invariant
                    i <= n == self.chunks@.len(),
                    items@.len() == i,
                    forall|j: int|
                        0 <= j < i ==> (#[trigger] items@[j]).0 == j as u64 && items@[j].1@
                            == self.chunks@[j]@.embedding,
                decreases n - i,
            {
                items.push((i as u64, self.chunks[i].embedding.clone()));
                i += 1;
            }
            assert(index::entries(items@) =~= numbered(self@.chunks));
            self.ann = Some(ix.rebuild(items));
        }
        assert(self@ =~= start@);
    }

    /// How many documents there are.
    pub fn n_documents(&self) -> (r: usize)
        ensures
            r == self@.documents.len(),
    {
        self.documents.len()
    }

    /// How many chunks there are.
    pub fn n_chunks(&self) -> (r: usize)
        ensures
            r == self@.chunks.len(),
    {
        self.chunks.len()
    }

    /// The chunk with the given number.
    pub fn chunk(&self, i: usize) -> (r: Option<&Chunk>)
        ensures
            match r {
                Some(c) => i < self@.chunks.len() && c@ == self@.chunks[i as int],
                None => i >= self@.chunks.len(),
            },
    {
        if i < self.chunks.len() {
            Some(&self.chunks[i])
        } else {
            None
        }
    }

    /// The entry of a document.
    pub fn document(&self, doc_id: &str) -> (r: Option<&DocumentEntry>)
        ensures
            match r {
                Some(e) => entry_of(self@.documents, doc_id@) == Some(e@),
                None => entry_of(self@.documents, doc_id@) is None,
            },
    {
        let ghost all = self@.documents;
        let mut i: usize = 0;
        assert(all.skip(0) =~= all);
        while i < self.documents.len()
            invariant
                all == self@.documents,
                i <= self.documents@.len(),
                entry_of(all, doc_id@) == entry_of(all.skip(i as int), doc_id@),
            decreases self.documents@.len() - i,
        {
            assert(all.skip(i as int)[0] == self.documents@[i as int]@);
            if same_text(&self.documents[i].doc_id, doc_id) {
                return Some(&self.documents[i]);
            }
            assert(all.skip(i as int).skip(1) =~= all.skip(i + 1));
            i += 1;
        }
        None
    }

    /// The ids of all documents.
    pub fn document_ids(&self) -> (r: Vec<String>)
        ensures
            text::texts(r@) == self@.documents.map_values(|e: EntryState| e.doc_id),
    {
        let mut out: Vec<String> = Vec::with_capacity(self.documents.len());
        let mut i: usize = 0;
        while i < self.documents.len()
            invariant
                i <= self.documents@.len(),
                out@.len() == i,
                forall|j: int| 0 <= j < i ==> (#[trigger] out@[j])@ == self.documents@[j].doc_id@,
            decreases self.documents@.len() - i,
        {
            out.push(self.documents[i].doc_id.clone());
            i += 1;
        }
        assert(text::texts(out@) =~= self@.documents.map_values(|e: EntryState| e.doc_id));
        out
    }

    /// Takes a document and its chunks out, without touching the index.
    fn drop_document(&mut self, doc_id: &str) -> (r: bool)
        requires
            old(self)@.valid(),
        ensures
            final(self)@ == old(self)@.without(doc_id@),
            final(self)@.valid(),
            final(self).arithmetic() == old(self).arithmetic(),
            final(self).coder() == old(self).coder(),
            final(self).finder() == old(self).finder(),
            r == (final(self)@ != old(self)@),
    {
        let ghost v = self@;
        let ghost start = *self;
        let n_chunks = self.chunks.len();
        let n_documents = self.documents.len();
        let mut i: usize = self.chunks.len();
        assert(v.chunks.subrange(i as int, v.chunks.len() as int) =~= Seq::empty());
        while i > 0
            invariant
                start@ == v,
                self.documents == start.documents,
                self.arithmetic() == start.arithmetic(),
                self.coder() == start.coder(),
                self.finder() == start.finder(),
                self.chunk_size == start.chunk_size,
                self.chunk_overlap == start.chunk_overlap,
                i <= v.chunks.len(),
                i <= self@.chunks.len(),
                self@.chunks == v.chunks.take(i as int) + chunks_without(
                    v.chunks.skip(i as int),
                    doc_id@,
                ),
            decreases i,
        {
            let ghost now = self@.chunks;
            let ghost head = v.chunks.take(i - 1);
            let ghost c = v.chunks[i - 1];
            assert(now[i - 1] == c);
            proof {
                chunks_without_front(v.chunks.skip(i - 1), doc_id@);
                assert(v.chunks.skip(i - 1).skip(1) =~= v.chunks.skip(i as int));
                assert(v.chunks.skip(i - 1)[0] == c);
            }
            if same_text(&self.chunks[i - 1].doc_id, doc_id) {
                self.chunks.remove(i - 1);
                assert(self@.chunks =~= now.remove(i - 1));
                assert(self@.chunks =~= head + chunks_without(v.chunks.skip(i - 1), doc_id@));
            } else {
                assert(now =~= head + chunks_without(v.chunks.skip(i - 1), doc_id@));
            }
            i = i - 1;
        }
        assert(v.chunks.skip(0) =~= v.chunks);
        assert(self@.chunks =~= chunks_without(v.chunks, doc_id@));
        let ghost middle = *self;
        let mut j: usize = self.documents.len();
        assert(self@.documents == v.documents);
        while j > 0
            invariant
                self.chunks == middle.chunks,
                middle@.documents == v.documents,
                self.arithmetic() == start.arithmetic(),
                self.coder() == start.coder(),
                self.finder() == start.finder(),
                self.chunk_size == start.chunk_size,
                self.chunk_overlap == start.chunk_overlap,
                j <= v.documents.len(),
                j <= self@.documents.len(),
                self@.documents == v.documents.take(j as int) + documents_without(
                    v.documents.skip(j as int),
                    doc_id@,
                ),
            decreases j,
        {
            let ghost now = self@.documents;
            let ghost head = v.documents.take(j - 1);
            let ghost e = v.documents[j - 1];
            assert(now[j - 1] == e);
            proof {
                documents_without_front(v.documents.skip(j - 1), doc_id@);
                assert(v.documents.skip(j - 1).skip(1) =~= v.documents.skip(j as int));
                assert(v.documents.skip(j - 1)[0] == e);
            }
            if same_text(&self.documents[j - 1].doc_id, doc_id) {
                self.documents.remove(j - 1);
                assert(self@.documents =~= now.remove(j - 1));
                assert(self@.documents =~= head + documents_without(
                    v.documents.skip(j - 1),
                    doc_id@,
                ));
            } else {
                assert(now =~= head + documents_without(v.documents.skip(j - 1), doc_id@));
            }
            j = j - 1;
        }
        assert(v.documents.skip(0) =~= v.documents);
        assert(self@.documents =~= documents_without(v.documents, doc_id@));
        assert(self@ =~= v.without(doc_id@));
        proof {
            without_drops_exactly_the_document(v, doc_id@);
            dropping_shortens(v, doc_id@);
        }
        self.chunks.len() != n_chunks || self.documents.len() != n_documents
    }

    /// Forgets a document and all its chunks. Gives whether there was anything
    /// to forget.
    pub fn forget_document(&mut self, doc_id: &str) -> (r: bool)
        requires
            old(self).wf(),
        ensures
            final(self).wf(),
            final(self).same_parts(&*old(self)),
            final(self)@ == old(self)@.without(doc_id@),
            r == (final(self)@ != old(self)@),
            old(self)@.owned() ==> final(self)@.owned(),
    {
        proof {
            if self@.owned() {
                chunks_stay_owned(
                    self@,
                    doc_id@,
                    Seq::empty(),
                    Seq::empty(),
                    Seq::empty(),
                    Timestamp { secs: 0, nanos: 0 },
                );
            }
        }
        let r = self.drop_document(doc_id);
        self.rebuild_ann();
        r
    }

    /// Takes the chunks and the entry of a document in, where no document has
    /// its id.
    fn put_document(
        &mut self,
        doc_id: &str,
        texts: &Vec<String>,
        vectors: &Vec<Vec<u32>>,
        metadata: Vec<(String, Json)>,
        now: Timestamp,
    )
        requires
            old(self)@.valid(),
            !has_document(old(self)@.documents, doc_id@),
        ensures
            final(self).wf(),
            final(self).same_parts(&*old(self)),
            final(self)@ == (LibraryState {
                documents: old(self)@.documents.push(
                    EntryState {
                        doc_id: doc_id@,
                        metadata: json::members(metadata@),
                        n_chunks: texts@.len(),
                        added: now,
                    },
                ),
                chunks: old(self)@.chunks + new_chunks(
                    doc_id@,
                    text::texts(texts@),
                    embedding::vectors(vectors@),
                ),
                ..old(self)@
            }),
    {
        let ghost v = self@;
        let ghost start = *self;
        let ghost fresh = new_chunks(doc_id@, text::texts(texts@), embedding::vectors(vectors@));
        let n: usize = if texts.len() < vectors.len() {
            texts.len()
        } else {
            vectors.len()
        };
        let mut i: usize = 0;
        assert(v.chunks + fresh.take(0) =~= v.chunks);
        while i < n
            invariant
                start@ == v,
                self.documents == start.documents,
                self.same_parts(&start),
                self.chunk_size == start.chunk_size,
                self.chunk_overlap == start.chunk_overlap,
                i <= n <= texts@.len(),
                n <= vectors@.len(),
                n == fresh.len(),
                fresh == new_chunks(doc_id@, text::texts(texts@), embedding::vectors(vectors@)),
                self@.chunks == v.chunks + fresh.take(i as int),
            decreases n - i,
        {
            let mut id = String::new();
            id.append(doc_id);
            id.append("#chunk_");
            id.append(&decimal_string(i as u64));
            assert(id@ =~= chunk_id(doc_id@, i as nat));
            let preview = truncated(&texts[i], CHUNK_CHARS);
            let c = Chunk::new(id, doc_id.to_string(), i, &preview, vectors[i].clone());
            assert(c@ =~= fresh[i as int]);
            let ghost before = self@.chunks;
            self.chunks.push(c);
            assert(self@.chunks =~= before.push(fresh[i as int]));
            assert(self@.chunks =~= v.chunks + fresh.take(i + 1));
            i += 1;
        }
        assert(fresh.take(i as int) =~= fresh);
        let entry = DocumentEntry {
            doc_id: doc_id.to_string(),
            metadata,
            n_chunks: texts.len(),
            added_ts: now,
        };
        self.documents.push(entry);
        proof {
            assert(self@.documents =~= v.documents.push(entry@));
            assert forall|a: int, b: int| 0 <= a < b < self@.documents.len() implies (
            #[trigger] self@.documents[a]).doc_id != (#[trigger] self@.documents[b]).doc_id by {
                assert(self@.documents[a] == v.documents[a]);
                if b < v.documents.len() {
                    assert(self@.documents[b] == v.documents[b]);
                }
            }
        }
        self.rebuild_ann();
    }

    /// Takes out what there is of a document, so that it can be added.
    fn clear_document(&mut self, doc_id: &str)
        requires
            old(self).wf(),
        ensures
            final(self)@ == old(self)@.cleared(doc_id@),
            final(self).wf(),
            final(self).same_parts(&*old(self)),
            !has_document(final(self)@.documents, doc_id@),
    {
        let known = self.document(doc_id).is_some();
        proof {
            entry_means_document(self@.documents, doc_id@);
            without_drops_exactly_the_document(self@, doc_id@);
        }
        if known {
            self.forget_document(doc_id);
        }
    }

    /// Adds a document under its id, in place of one with the same id, and
    /// gives the number of chunks that were stored: as many as the encoder gave
    /// vectors for. A text without words only takes the document with that id
    /// out.
    pub fn add_document(
        &mut self,
        doc_id: &str,
        text: &str,
        metadata: Vec<(String, Json)>,
        now: Timestamp,
    ) -> (r: usize)
        requires
            old(self).wf(),
        ensures
            final(self).wf(),
            final(self).same_parts(&*old(self)),
            add_gives(
                old(self).coder(),
                old(self)@,
                doc_id@,
                text@,
                json::members(metadata@),
                now,
                final(self)@,
                r as nat,
            ),
            old(self)@.owned() ==> final(self)@.owned(),
    {
        let ghost v = self@;
        self.clear_document(doc_id);
        let texts = chunk_text(text, self.chunk_size, self.chunk_overlap);
        assert(text::texts(texts@).len() == texts@.len());
        if texts.len() == 0 {
            proof {
                if v.owned() {
                    chunks_stay_owned(v, doc_id@, Seq::empty(), Seq::empty(), Seq::empty(), now);
                }
            }
            return 0;
        }
        let vectors = self.encoder.encode(&texts);
        assert(embedding::encode_gives(
            self.coder(),
            text::texts(texts@),
            embedding::vectors(vectors@),
        ));
        let n = if texts.len() < vectors.len() {
            texts.len()
        } else {
            vectors.len()
        };
        assert(embedding::vectors(vectors@).len() == vectors@.len());
        self.put_document(doc_id, &texts, &vectors, metadata, now);
        assert(self@ =~= v.with(
            doc_id@,
            text::texts(texts@),
            embedding::vectors(vectors@),
            json::members(metadata@),
            now,
        ));
        proof {
            if v.owned() {
                chunks_stay_owned(
                    v,
                    doc_id@,
                    text::texts(texts@),
                    embedding::vectors(vectors@),
                    json::members(metadata@),
                    now,
                );
            }
        }
        n
    }

    /// Adds a document whose chunks come with their vectors, in place of one
    /// with the same id, and gives the number of its chunks. Without chunks,
    /// or with another number of vectors, it does nothing.
    pub fn add_document_with_embeddings(
        &mut self,
        doc_id: &str,
        chunks: Vec<String>,
        embeddings: Vec<Vec<u32>>,
        metadata: Vec<(String, Json)>,
        now: Timestamp,
    ) -> (r: usize)
        requires
            old(self).wf(),
        ensures
            final(self).wf(),
            final(self).same_parts(&*old(self)),
            if chunks@.len() != embeddings@.len() || chunks@.len() == 0 {
                r == 0 && final(self)@ == old(self)@
            } else {
                r == chunks@.len() && final(self)@ == old(self)@.with(
                    doc_id@,
                    text::texts(chunks@),
                    embedding::vectors(embeddings@),
                    json::members(metadata@),
                    now,
                )
            },
            old(self)@.owned() ==> final(self)@.owned(),
    {
        if chunks.len() != embeddings.len() || chunks.len() == 0 {
            return 0;
        }
        let ghost v = self@;
        self.clear_document(doc_id);
        let n = chunks.len();
        self.put_document(doc_id, &chunks, &embeddings, metadata, now);
        assert(self@ =~= v.with(
            doc_id@,
            text::texts(chunks@),
            embedding::vectors(embeddings@),
            json::members(metadata@),
            now,
        ));
        proof {
            if v.owned() {
                chunks_stay_owned(
                    v,
                    doc_id@,
                    text::texts(chunks@),
                    embedding::vectors(embeddings@),
                    json::members(metadata@),
                    now,
                );
            }
        }
        n
    }

    /// The hit for chunk number `i`.
    fn make_hit(&self, i: usize, score: u32) -> (r: SearchHit)
        requires
            i < self@.chunks.len(),
        ensures
            r@ == hit_of(self@, i as int, score),
    {
        let c = &self.chunks[i];
        assert(c@ == self@.chunks[i as int]);
        let metadata = match self.document(&c.doc_id) {
            Some(e) => copy_members(&e.metadata),
            None => Vec::new(),
        };
        let r = SearchHit {
            chunk_id: c.id.clone(),
            doc_id: c.doc_id.clone(),
            score,
            text: c.text(),
            metadata,
        };
        assert(r@.metadata =~= self@.metadata_of(c@.doc_id));
        r
    }

    /// Asks the index.
    fn ask(&self, ix: &I, query: &Vec<u32>, k: usize) -> (r: Vec<SearchHit>)
        ensures
            index_gives(*ix, self@, query@, k, hits(r@)),
    {
        let answer = ix.search(query, k);
        self.hits_for(&answer)
    }

    /// The hits for what an index answered.
    pub fn hits_for(&self, answer: &Vec<(u64, u32)>) -> (r: Vec<SearchHit>)
        ensures
            hits(r@) == answered(self@, answer@),
    {
        let mut out: Vec<SearchHit> = Vec::new();
        let mut i: usize = 0;
        assert(hits(out@) =~= answered(self@, answer@.take(0)));
        while i < answer.len()
            invariant
                i <= answer@.len(),
                hits(out@) == answered(self@, answer@.take(i as int)),
            decreases answer@.len() - i,
        {
            let pos = answer[i].0;
            assert(answer@.take(i + 1).drop_last() =~= answer@.take(i as int));
            assert(answer@.take(i + 1).last() == answer@[i as int]);
            if pos < self.chunks.len() as u64 {
                let h = self.make_hit(pos as usize, answer[i].1);
                let ghost before = hits(out@);
                out.push(h);
                assert(hits(out@) =~= before.push(h@));
            }
            i += 1;
        }
        assert(answer@.take(i as int) =~= answer@);
        out
    }

    /// Scores all chunks that take part.
    fn scores(&self, query: &Vec<u32>, keep: &Vec<bool>) -> (r: Vec<Option<u32>>)
        requires
            keep@.len() == self@.chunks.len(),
        ensures
            scores_give(self.arithmetic(), query@, self@.chunks, keep@, r@),
    {
        let mut out: Vec<Option<u32>> = Vec::with_capacity(self.chunks.len());
        let mut i: usize = 0;
        while i < self.chunks.len()
            invariant
                keep@.len() == self.chunks@.len(),
                i <= self.chunks@.len(),
                out@.len() == i,
                forall|j: int|
                    0 <= j < i ==> score_gives(
                        self.arithmetic(),
                        query@,
                        self@.chunks[j].embedding,
                        keep@[j],
                        #[trigger] out@[j],
                    ),
            decreases self.chunks@.len() - i,
        {
            assert(self@.chunks[i as int].embedding == self.chunks@[i as int].embedding@);
            let s: Option<u32> = if keep[i] {
                match cosine_similarity(&*self.kernel, query, &self.chunks[i].embedding) {
                    Ok(c) => Some(c),
                    Err(_) => None,
                }
            } else {
                None
            };
            out.push(s);
            i += 1;
        }
        out
    }

    /// The hits for given scores.
    pub fn best_hits(&self, scores: &Vec<Option<u32>>, least: Option<u32>, k: usize) -> (r: Vec<
        SearchHit,
    >)
        requires
            scores@.len() == self@.chunks.len(),
        ensures
            exists|at: Seq<int>| #[trigger]
                ranking::is_top(
                    candidate_keys(scores@, candidates(scores@, least)),
                    k as nat,
                    at,
                ) && hits(r@) == at.map_values(
                    |p: int|
                        hit_of(
                            self@,
                            candidates(scores@, least)[p],
                            scores@[candidates(scores@, least)[p]]->0,
                        ),
                ),
    {
        let ghost found = candidates(scores@, least);
        let mut at: Vec<usize> = Vec::new();
        let mut keys: Vec<i64> = Vec::new();
        let mut i: usize = 0;
        assert(ranking::positions(at@) =~= candidates(scores@.take(0), least));
        while i < scores.len()
            invariant
                i <= scores@.len(),
                ranking::positions(at@) == candidates(scores@.take(i as int), least),
                keys@.len() == at@.len(),
                forall|j: int|
                    0 <= j < at@.len() ==> (#[trigger] at@[j]) < i && keys@[j] == score::rank(
                        scores@[at@[j] as int]->0,
                    ),
            decreases scores@.len() - i,
        {
            assert(scores@.take(i + 1).drop_last() =~= scores@.take(i as int));
            assert(scores@.take(i + 1).last() == scores@[i as int]);
            if let Some(s) = scores[i] {
                let fits = match least {
                    Some(m) => !nan(s) && !nan(m) && place(s) >= place(m),
                    None => true,
                };
                if fits {
                    let ghost before = ranking::positions(at@);
                    at.push(i);
                    keys.push(place(s));
                    assert(ranking::positions(at@) =~= before.push(i as int));
                }
            }
            i += 1;
        }
        assert(scores@.take(i as int) =~= scores@);
        assert(ranking::positions(at@) == found);
        assert(keys@ =~= candidate_keys(scores@, found)) by {
            assert forall|j: int| 0 <= j < keys@.len() implies keys@[j] == candidate_keys(
                scores@,
                found,
            )[j] by {
                assert(found[j] == at@[j] as int);
                assert(keys@[j] == score::rank(scores@[at@[j] as int]->0));
            }
        }
        proof {
            candidates_in_range(scores@, least);
        }
        let order = top_positions(&keys, k);
        let ghost picked = ranking::positions(order@);
        let ghost goal = picked.map_values(
            |p: int| hit_of(self@, found[p], scores@[found[p]]->0),
        );
        let mut out: Vec<SearchHit> = Vec::with_capacity(order.len());
        let mut j: usize = 0;
        while j < order.len()
            invariant
                found == candidates(scores@, least),
                ranking::positions(at@) == found,
                scores@.len() == self@.chunks.len(),
                picked == ranking::positions(order@),
                ranking::is_top(keys@, k as nat, picked),
                keys@.len() == at@.len() == found.len(),
                goal == picked.map_values(|p: int| hit_of(self@, found[p], scores@[found[p]]->0)),
                forall|c: int|
                    0 <= c < found.len() ==> 0 <= #[trigger] found[c] < scores@.len()
                        && scores@[found[c]] is Some,
                j <= order@.len(),
                hits(out@) == goal.take(j as int),
            decreases order@.len() - j,
        {
            assert(picked[j as int] == order@[j as int] as int);
            let p = order[j];
            assert(found[p as int] == at@[p as int] as int);
            let at_chunk = at[p];
            let score = match scores[at_chunk] {
                Some(s) => s,
                None => 0,
            };
            let h = self.make_hit(at_chunk, score);
            let ghost before = hits(out@);
            out.push(h);
            assert(hits(out@) =~= before.push(h@));
            assert(goal[j as int] == h@);
            assert(goal.take(j + 1) =~= goal.take(j as int).push(goal[j as int]));
            j += 1;
        }
        assert(goal.take(j as int) =~= goal);
        out
    }

    /// Scans all chunks that take part.
    fn scan(&self, query: &Vec<u32>, keep: &Vec<bool>, least: Option<u32>, k: usize) -> (r: Vec<
        SearchHit,
    >)
        requires
            keep@.len() == self@.chunks.len(),
        ensures
            scan_gives(
                self.arithmetic(),
                self@,
                query@,
                keep@,
                least,
                k as nat,
                hits(r@),
            ),
    {
        let scores = self.scores(query, keep);
        self.best_hits(&scores, least, k)
    }

    /// The `k` chunks most similar to a text, among the documents that the
    /// condition lets in.
    pub fn semantic_search<F: Fn(&DocumentEntry) -> bool>(
        &self,
        query: &str,
        k: usize,
        filter: Option<F>,
    ) -> (r: Vec<SearchHit>)
        requires
            self.wf(),
            filter matches Some(f) ==> forall|e: &DocumentEntry| call_requires(f, (e,)),
        ensures
            semantic_gives(
                self.arithmetic(),
                self.coder(),
                self.finder(),
                self@,
                query@,
                k,
                filter,
                hits(r@),
            ),
    {
        if self.chunks.len() == 0 {
            return Vec::new();
        }
        let mut texts: Vec<String> = Vec::new();
        texts.push(query.to_string());
        assert(text::texts(texts@) =~= seq![query@]);
        let vectors = self.encoder.encode_query(&texts);
        assert(embedding::encode_query_gives(
            self.coder(),
            seq![query@],
            embedding::vectors(vectors@),
        ));
        if vectors.len() == 0 {
            return Vec::new();
        }
        assert(embedding::vectors(vectors@)[0] == vectors@[0]@);
        self.search_by_condition(&vectors[0], k, filter)
    }

    /// The `k` chunks most similar to a vector, among the documents that the
    /// condition lets in.
    pub fn search_by_condition<F: Fn(&DocumentEntry) -> bool>(
        &self,
        query: &Vec<u32>,
        k: usize,
        filter: Option<F>,
    ) -> (r: Vec<SearchHit>)
        requires
            self.wf(),
            filter matches Some(f) ==> forall|e: &DocumentEntry| call_requires(f, (e,)),
        ensures
            found_gives(
                self.arithmetic(),
                self.finder(),
                self@,
                query@,
                k,
                filter,
                hits(r@),
            ),
    {
        if filter.is_none() {
            if let Some(ix) = &self.ann {
                return self.ask(ix, query, k);
            }
        }
        let mut keep: Vec<bool> = Vec::with_capacity(self.chunks.len());
        let mut i: usize = 0;
        while i < self.chunks.len()
            invariant
                filter matches Some(f) ==> forall|e: &DocumentEntry| call_requires(f, (e,)),
                i <= self.chunks@.len(),
                keep@.len() == i,
                forall|j: int| 0 <= j < i ==> lets_in(filter, self@, j, #[trigger] keep@[j]),
            decreases self.chunks@.len() - i,
        {
            assert(self@.chunks[i as int] == self.chunks@[i as int]@);
            let b = match &filter {
                Some(f) => match self.document(&self.chunks[i].doc_id) {
                    Some(e) => f(e),
                    None => false,
                },
                None => true,
            };
            assert(lets_in(filter, self@, i as int, b));
            keep.push(b);
            i += 1;
        }
        assert(kept(filter, self@, keep@));
        self.scan(query, &keep, None, k)
    }

    /// The `k` chunks most similar to a vector, among those that meet the
    /// conditions of the filter.
    pub fn search(&self, query_emb: &Vec<u32>, k: usize, filter: &SearchFilter) -> (r: Vec<
        SearchHit,
    >)
        requires
            self.wf(),
        ensures
            search_gives(
                self.arithmetic(),
                self.finder(),
                self@,
                query_emb@,
                k,
                filter@,
                hits(r@),
            ),
            forall|h: int, i: int|
                0 <= h < r@.len() && 0 <= i < filter.metadata@.len() ==> holds(
                    json::members((#[trigger] r@[h]).metadata@),
                    (#[trigger] filter.metadata@[i]).0@,
                    filter.metadata@[i].1@,
                ),
            forall|h: int|
                0 <= h < r@.len() ==> is_listed((#[trigger] r@[h]).doc_id@, filter.doc_ids),
            filter.min_score matches Some(m) ==> forall|h: int|
                0 <= h < r@.len() ==> score::rank((#[trigger] r@[h]).score) >= score::rank(m),
    {
        if self.chunks.len() == 0 || query_emb.len() == 0 {
            return Vec::new();
        }
        if filter.is_empty() {
            if let Some(ix) = &self.ann {
                return self.ask(ix, query_emb, k);
            }
        }
        let needle: Option<String> = match &filter.contains_text {
            Some(s) => Some(to_lowercase(s)),
            None => None,
        };
        let ghost goal = self@.chunks.map_values(
            |c: ChunkState| filter@.admits_chunk(self@, c),
        );
        let mut keep: Vec<bool> = Vec::with_capacity(self.chunks.len());
        let mut i: usize = 0;
        while i < self.chunks.len()
            invariant
                goal == self@.chunks.map_values(
                    |c: ChunkState| filter@.admits_chunk(self@, c),
                ),
                match (filter.contains_text, needle) {
                    (Some(s), Some(n)) => n@ == text::lowered(s@),
                    (None, None) => true,
                    _ => false,
                },
                i <= self.chunks@.len(),
                keep@ == goal.take(i as int),
            decreases self.chunks@.len() - i,
        {
            let c = &self.chunks[i];
            assert(self@.chunks[i as int] == c@);
            let fits = match self.document(&c.doc_id) {
                Some(e) => filter.doc_matches(e),
                None => false,
            };
            let b = fits && match &needle {
                Some(n) => contains_text(&to_lowercase(&c.text()), n),
                None => true,
            };
            assert(b == filter@.admits_chunk(self@, c@));
            keep.push(b);
            i += 1;
            assert(keep@ =~= goal.take(i as int));
        }
        assert(goal.take(i as int) =~= goal);
        let r = self.scan(query_emb, &keep, filter.min_score, k);
        proof {
            assert forall|h: int| 0 <= h < r@.len() implies {
                let hit = #[trigger] r@[h];
                &&& forall|i: int|
                    0 <= i < filter.metadata@.len() ==> holds(
                        json::members(hit.metadata@),
                        (#[trigger] filter.metadata@[i]).0@,
                        filter.metadata@[i].1@,
                    )
                &&& is_listed(hit.doc_id@, filter.doc_ids)
                &&& filter.min_score matches Some(m) ==> score::rank(hit.score) >= score::rank(m)
            } by {
                every_hit_meets_every_condition(
                    self.arithmetic(),
                    self.finder(),
                    self@,
                    query_emb@,
                    k,
                    filter@,
                    hits(r@),
                    h,
                );
                assert(hits(r@)[h] == r@[h]@);
                assert forall|i: int| 0 <= i < filter.metadata@.len() implies holds(
                    json::members(r@[h].metadata@),
                    (#[trigger] filter.metadata@[i]).0@,
                    filter.metadata@[i].1@,
                ) by {
                    assert(filter@.metadata[i] == (
                        filter.metadata@[i].0@,
                        filter.metadata@[i].1@,
                    ));
                }
                if let Some(ids) = filter.doc_ids {
                    let j = choose|j: int|
                        0 <= j < text::texts(ids@).len() && #[trigger] text::texts(ids@)[j]
                            == r@[h].doc_id@;
                    assert(ids@[j]@ == r@[h].doc_id@);
                }
            }
        }
        r
    }
}

/// Taking a document out works from the front as well.
proof fn chunks_without_shortens(chunks: Seq<ChunkState>, doc_id: Seq<char>)
    ensures
        chunks_without(chunks, doc_id).len() <= chunks.len(),
        chunks_without(chunks, doc_id).len() == chunks.len() ==> chunks_without(chunks, doc_id)
            == chunks,
    decreases chunks.len(),
{
    if chunks.len() > 0 {
        chunks_without_shortens(chunks.drop_last(), doc_id);
        assert(chunks.drop_last().push(chunks.last()) =~= chunks);
    } else {
        assert(chunks_without(chunks, doc_id) =~= chunks);
    }
}

proof fn documents_without_shortens(documents: Seq<EntryState>, doc_id: Seq<char>)
    ensures
        documents_without(documents, doc_id).len() <= documents.len(),
        documents_without(documents, doc_id).len() == documents.len() ==> documents_without(
            documents,
            doc_id,
        ) == documents,
    decreases documents.len(),
{
    if documents.len() > 0 {
        documents_without_shortens(documents.drop_last(), doc_id);
        assert(documents.drop_last().push(documents.last()) =~= documents);
    } else {
        assert(documents_without(documents, doc_id) =~= documents);
    }
}

/// Taking a document out changes a state exactly when there are fewer chunks or
/// fewer documents then.
proof fn dropping_shortens(v: LibraryState, doc_id: Seq<char>)
    ensures
        v.without(doc_id) != v <==> v.without(doc_id).chunks.len() != v.chunks.len() || v.without(
            doc_id,
        ).documents.len() != v.documents.len(),
{
    chunks_without_shortens(v.chunks, doc_id);
    documents_without_shortens(v.documents, doc_id);
    if v.without(doc_id).chunks.len() == v.chunks.len() && v.without(doc_id).documents.len()
        == v.documents.len() {
        assert(v.without(doc_id) =~= v);
    }
}

proof fn chunks_without_front(chunks: Seq<ChunkState>, doc_id: Seq<char>)
    requires
        chunks.len() > 0,
    ensures
        chunks_without(chunks, doc_id) == (if chunks[0].doc_id == doc_id {
            Seq::empty()
        } else {
            seq![chunks[0]]
        }) + chunks_without(chunks.skip(1), doc_id),
    decreases chunks.len(),
{
    if chunks.len() == 1 {
        assert(chunks.drop_last() =~= Seq::empty());
        assert(chunks.skip(1) =~= Seq::empty());
        reveal_with_fuel(chunks_without, 2);
        assert(chunks_without(chunks, doc_id) =~= (if chunks[0].doc_id == doc_id {
            Seq::empty()
        } else {
            seq![chunks[0]]
        }) + chunks_without(chunks.skip(1), doc_id));
    } else {
        let init = chunks.drop_last();
        chunks_without_front(init, doc_id);
        assert(init.skip(1) =~= chunks.skip(1).drop_last());
        assert(chunks.skip(1).last() == chunks.last());
        assert(init[0] == chunks[0]);
        assert(chunks_without(chunks, doc_id) =~= (if chunks[0].doc_id == doc_id {
            Seq::empty()
        } else {
            seq![chunks[0]]
        }) + chunks_without(chunks.skip(1), doc_id));
    }
}

proof fn documents_without_front(documents: Seq<EntryState>, doc_id: Seq<char>)
    requires
        documents.len() > 0,
    ensures
        documents_without(documents, doc_id) == (if documents[0].doc_id == doc_id {
            Seq::empty()
        } else {
            seq![documents[0]]
        }) + documents_without(documents.skip(1), doc_id),
    decreases documents.len(),
{
    if documents.len() == 1 {
        assert(documents.drop_last() =~= Seq::empty());
        assert(documents.skip(1) =~= Seq::empty());
        reveal_with_fuel(documents_without, 2);
        assert(documents_without(documents, doc_id) =~= (if documents[0].doc_id == doc_id {
            Seq::empty()
        } else {
            seq![documents[0]]
        }) + documents_without(documents.skip(1), doc_id));
    } else {
        let init = documents.drop_last();
        documents_without_front(init, doc_id);
        assert(init.skip(1) =~= documents.skip(1).drop_last());
        assert(documents.skip(1).last() == documents.last());
        assert(init[0] == documents[0]);
        assert(documents_without(documents, doc_id) =~= (if documents[0].doc_id == doc_id {
            Seq::empty()
        } else {
            seq![documents[0]]
        }) + documents_without(documents.skip(1), doc_id));
    }
}

/// An id is known exactly when it has an entry.
pub proof fn entry_means_document(documents: Seq<EntryState>, doc_id: Seq<char>)
    ensures
        entry_of(documents, doc_id) is Some <==> has_document(documents, doc_id),
        entry_of(documents, doc_id) matches Some(e) ==> e.doc_id == doc_id && documents.contains(e),
    decreases documents.len(),
{
    if documents.len() > 0 {
        let rest = documents.skip(1);
        entry_means_document(rest, doc_id);
        if documents[0].doc_id != doc_id {
            if has_document(rest, doc_id) {
                let i = choose|i: int| 0 <= i < rest.len() && (#[trigger] rest[i]).doc_id == doc_id;
                assert(documents[i + 1].doc_id == doc_id);
            }
            if has_document(documents, doc_id) {
                let i = choose|i: int|
                    0 <= i < documents.len() && (#[trigger] documents[i]).doc_id == doc_id;
                assert(rest[i - 1].doc_id == doc_id);
            }
            if let Some(e) = entry_of(rest, doc_id) {
                let i = rest.index_of(e);
                assert(documents[i + 1] == e);
            }
        }
    }
}

// ---------------------------------------------------------------------
// Snapshots
// ---------------------------------------------------------------------

/// A chunk as it is saved: with its text in full.
#[derive(Debug)]
pub struct ChunkSnapshot {
    pub id: String,
    pub doc_id: String,
    pub idx: usize,
    pub text: String,
    pub embedding: Vec<u32>,
}

impl View for ChunkSnapshot {
    type V = ChunkState;

    open spec fn view(&self) -> ChunkState {
        ChunkState {
            id: self.id@,
            doc_id: self.doc_id@,
            idx: self.idx as nat,
            text: self.text@,
            embedding: self.embedding@,
        }
    }
}

/// A document store as it is saved.
#[derive(Debug)]
pub struct DocumentSnapshot {
    pub schema_version: u32,
    pub chunk_size: usize,
    pub chunk_overlap: usize,
    pub documents: Vec<DocumentEntry>,
    pub chunks: Vec<ChunkSnapshot>,
}

/// What is saved of a store.
impl View for DocumentSnapshot {
    type V = LibraryState;

    open spec fn view(&self) -> LibraryState {
        LibraryState {
            documents: self.documents@.map_values(|e: DocumentEntry| e@),
            chunks: self.chunks@.map_values(|c: ChunkSnapshot| c@),
            chunk_size: self.chunk_size as nat,
            chunk_overlap: self.chunk_overlap as nat,
        }
    }
}

/// The documents with an entry in place of one with the same id, or behind
/// the others.
pub open spec fn entry_put(documents: Seq<EntryState>, e: EntryState) -> Seq<EntryState> {
    if has_document(documents, e.doc_id) {
        let i = choose|i: int|
            0 <= i < documents.len() && (#[trigger] documents[i]).doc_id == e.doc_id;
        documents.update(i, e)
    } else {
        documents.push(e)
    }
}

/// The documents after putting entries in one by one.
pub open spec fn entries_put(more: Seq<EntryState>) -> Seq<EntryState>
    decreases more.len(),
{
    if more.len() == 0 {
        Seq::empty()
    } else {
        entry_put(entries_put(more.drop_last()), more.last())
    }
}

/// What restoring a snapshot gives.
pub open spec fn restored(v: LibraryState) -> LibraryState {
    LibraryState {
        documents: entries_put(v.documents),
        chunk_overlap: bounded_overlap(v.chunk_size, v.chunk_overlap),
        ..v
    }
}

/// Of saved entries with one id the last is restored, in the place of the first;
/// those with other ids stay as they are.
pub proof fn a_later_entry_replaces(documents: Seq<EntryState>, e: EntryState)
    ensures
        entry_put(documents, e).contains(e),
        has_document(documents, e.doc_id) ==> entry_put(documents, e).len() == documents.len(),
        !has_document(documents, e.doc_id) ==> entry_put(documents, e) == documents.push(e),
        forall|i: int|
            0 <= i < documents.len() && (#[trigger] documents[i]).doc_id != e.doc_id ==> entry_put(
                documents,
                e,
            )[i] == documents[i],
        forall|i: int|
            0 <= i < documents.len() ==> (#[trigger] entry_put(documents, e)[i]).doc_id
                == documents[i].doc_id,
{
    let r = entry_put(documents, e);
    if has_document(documents, e.doc_id) {
        let i = choose|i: int|
            0 <= i < documents.len() && (#[trigger] documents[i]).doc_id == e.doc_id;
        assert(r[i] == e);
    } else {
        assert(r[documents.len() as int] == e);
    }
}

/// Restoring what was saved of a valid store gives the store back.
pub proof fn restoring_gives_back(v: LibraryState)
    requires
        v.valid(),
    ensures
        restored(v) == v,
{
    distinct_entries_stay(v.documents);
}

/// Putting entries in keeps the ids.
proof fn put_entries_keep_ids(more: Seq<EntryState>, id: Seq<char>)
    ensures
        has_document(entries_put(more), id) <==> has_document(more, id),
    decreases more.len(),
{
    if more.len() > 0 {
        let init = more.drop_last();
        let last = more.last();
        let before = entries_put(init);
        let after = entries_put(more);
        put_entries_keep_ids(init, id);
        put_entries_keep_ids(init, last.doc_id);
        assert(more[more.len() - 1] == last);
        if has_document(before, last.doc_id) {
            let i = choose|i: int|
                0 <= i < before.len() && (#[trigger] before[i]).doc_id == last.doc_id;
            assert(after == before.update(i, last));
            assert(forall|j: int|
                0 <= j < before.len() ==> (#[trigger] after[j]).doc_id == before[j].doc_id);
            assert(forall|j: int|
                0 <= j < before.len() ==> (#[trigger] before[j]).doc_id == after[j].doc_id);
        } else {
            assert(after == before.push(last));
            assert(forall|j: int| 0 <= j < before.len() ==> (#[trigger] before[j]) == after[j]);
            assert(after[before.len() as int] == last);
        }
        assert(forall|j: int| 0 <= j < init.len() ==> (#[trigger] init[j]) == more[j]);
        assert(forall|j: int| 0 <= j < init.len() ==> (#[trigger] more[j]) == init[j]);
    }
}

/// Where each chunk of a snapshot belongs to one of its documents, it still does
/// once the snapshot is restored.
pub proof fn restoring_keeps_chunks_owned(v: LibraryState)
    requires
        v.owned(),
    ensures
        restored(v).owned(),
{
    let w = restored(v);
    assert forall|i: int| 0 <= i < w.chunks.len() implies has_document(
        w.documents,
        (#[trigger] w.chunks[i]).doc_id,
    ) by {
        put_entries_keep_ids(v.documents, v.chunks[i].doc_id);
    }
}

proof fn distinct_entries_stay(documents: Seq<EntryState>)
    requires
        forall|i: int, j: int|
            0 <= i < j < documents.len() ==> (#[trigger] documents[i]).doc_id != (
            #[trigger] documents[j]).doc_id,
    ensures
        entries_put(documents) == documents,
    decreases documents.len(),
{
    if documents.len() > 0 {
        let init = documents.drop_last();
        distinct_entries_stay(init);
        let last = documents.last();
        if has_document(init, last.doc_id) {
            let i = choose|i: int|
                0 <= i < init.len() && (#[trigger] init[i]).doc_id == last.doc_id;
            assert(documents[i].doc_id != documents[documents.len() - 1].doc_id);
        }
        assert(init.push(last) =~= documents);
    } else {
        assert(entries_put(documents) =~= documents);
    }
}

/// Putting an entry in keeps ids distinct.
proof fn entry_put_keeps_distinct(documents: Seq<EntryState>, e: EntryState)
    requires
        forall|i: int, j: int|
            0 <= i < j < documents.len() ==> (#[trigger] documents[i]).doc_id != (
            #[trigger] documents[j]).doc_id,
    ensures
        forall|i: int, j: int|
            0 <= i < j < entry_put(documents, e).len() ==> (#[trigger] entry_put(
                documents,
                e,
            )[i]).doc_id != (#[trigger] entry_put(documents, e)[j]).doc_id,
{
    let r = entry_put(documents, e);
    assert forall|i: int, j: int| 0 <= i < j < r.len() implies (#[trigger] r[i]).doc_id != (
    #[trigger] r[j]).doc_id by {
        if has_document(documents, e.doc_id) {
            let k = choose|k: int|
                0 <= k < documents.len() && (#[trigger] documents[k]).doc_id == e.doc_id;
            assert(documents[i].doc_id != documents[j].doc_id);
        } else {
            assert(documents[i].doc_id != e.doc_id);
        }
    }
}

impl<K: Kernel, E: Encoder, I: VectorIndex> DocumentMemory<K, E, I> {
    /// What is to be saved of this store.
    pub fn build_snapshot(&self) -> (r: DocumentSnapshot)
        ensures
            r.schema_version == DOC_SCHEMA_VERSION,
            r.schema_version == 1,
            r@ == self@,
    {
        let mut documents: Vec<DocumentEntry> = Vec::with_capacity(self.documents.len());
        let mut i: usize = 0;
        while i < self.documents.len()
            invariant
                i <= self.documents@.len(),
                documents@.len() == i,
                forall|j: int| 0 <= j < i ==> (#[trigger] documents@[j])@ == self.documents@[j]@,
            decreases self.documents@.len() - i,
        {
            documents.push(self.documents[i].copy());
            i += 1;
        }
        let mut chunks: Vec<ChunkSnapshot> = Vec::with_capacity(self.chunks.len());
        let mut j: usize = 0;
        while j < self.chunks.len()
            invariant
                j <= self.chunks@.len(),
                chunks@.len() == j,
                forall|a: int| 0 <= a < j ==> (#[trigger] chunks@[a])@ == self.chunks@[a]@,
            decreases self.chunks@.len() - j,
        {
            let c = &self.chunks[j];
            let snap = ChunkSnapshot {
                id: c.id.clone(),
                doc_id: c.doc_id.clone(),
                idx: c.idx,
                text: c.text(),
                embedding: c.embedding.clone(),
            };
            assert(snap@ =~= c@);
            chunks.push(snap);
            j += 1;
        }
        let r = DocumentSnapshot {
            schema_version: DOC_SCHEMA_VERSION,
            chunk_size: self.chunk_size,
            chunk_overlap: self.chunk_overlap,
            documents,
            chunks,
        };
        assert(r@.documents =~= self@.documents);
        assert(r@.chunks =~= self@.chunks);
        r
    }

    /// Puts an entry in, in place of one with the same id.
    fn put_entry(&mut self, e: DocumentEntry)
        requires
            old(self)@.valid(),
        ensures
            final(self)@.valid(),
            final(self).arithmetic() == old(self).arithmetic(),
            final(self).coder() == old(self).coder(),
            final(self).finder() == old(self).finder(),
            final(self)@ == (LibraryState {
                documents: entry_put(old(self)@.documents, e@),
                ..old(self)@
            }),
    {
        let ghost v = self@;
        let mut i: usize = 0;
        proof {
            entry_put_keeps_distinct(v.documents, e@);
        }
        while i < self.documents.len()
            invariant
                self@ == v,
                v.valid(),
                self.arithmetic() == old(self).arithmetic(),
                self.coder() == old(self).coder(),
                self.finder() == old(self).finder(),
                i <= v.documents.len(),
                forall|j: int| 0 <= j < i ==> (#[trigger] v.documents[j]).doc_id != e@.doc_id,
            ensures
                self@ == v,
                self.arithmetic() == old(self).arithmetic(),
                self.coder() == old(self).coder(),
                self.finder() == old(self).finder(),
                i <= v.documents.len(),
                i < v.documents.len() ==> v.documents[i as int].doc_id == e@.doc_id,
                i == v.documents.len() ==> !has_document(v.documents, e@.doc_id),
            decreases v.documents.len() - i,
        {
            assert(v.documents[i as int] == self.documents@[i as int]@);
            if same_text(&self.documents[i].doc_id, &e.doc_id) {
                break;
            }
            i += 1;
        }
        if i < self.documents.len() {
            proof {
                assert(has_document(v.documents, e@.doc_id));
                let k = choose|k: int|
                    0 <= k < v.documents.len() && (#[trigger] v.documents[k]).doc_id == e@.doc_id;
                if k < i {
                    assert(v.documents[k].doc_id != v.documents[i as int].doc_id);
                }
                if k > i {
                    assert(v.documents[i as int].doc_id != v.documents[k].doc_id);
                }
                assert(k == i);
            }
            self.documents.set(i, e);
            assert(self@.documents =~= v.documents.update(i as int, e@));
        } else {
            self.documents.push(e);
            assert(self@.documents =~= v.documents.push(e@));
        }
        assert(self@ =~= LibraryState { documents: entry_put(v.documents, e@), ..v });
    }

    /// The store that a snapshot was made of, with an encoder. A snapshot of
    /// another version is refused.
    pub fn from_snapshot(kernel: Arc<K>, snap: DocumentSnapshot, encoder: E) -> (r: Result<
        Self,
        PersistError,
    >)
        ensures
            snap.schema_version != 1 ==> r is Err,
            if snap.schema_version != DOC_SCHEMA_VERSION {
                r matches Err(PersistError::Corrupt(s)) && s@ == persistence::version_text(
                    "document schema "@,
                    snap.schema_version,
                    " != "@,
                    DOC_SCHEMA_VERSION,
                )
            } else {
                r matches Ok(d) && {
                    &&& d.wf()
                    &&& d.arithmetic() == *kernel
                    &&& d.coder() == encoder
                    &&& d.finder() is None
                    &&& d@ == restored(snap@)
                    &&& snap@.owned() ==> d@.owned()
                }
            },
    {
        if snap.schema_version != DOC_SCHEMA_VERSION {
            return Err(
                PersistError::Corrupt(
                    version_message(
                        "document schema ",
                        snap.schema_version,
                        " != ",
                        DOC_SCHEMA_VERSION,
                    ),
                ),
            );
        }
        let ghost goal = restored(snap@);
        let mut d: DocumentMemory<K, E, I> = DocumentMemory::new(kernel, encoder).with_chunking(
            snap.chunk_size,
            snap.chunk_overlap,
        );
        let mut i: usize = 0;
        let ghost start = d;
        assert(d@.chunks.len() == 0);
        while i < snap.chunks.len()
            invariant
                i <= snap.chunks@.len(),
                d.documents == start.documents,
                d.chunk_size == start.chunk_size,
                d.chunk_overlap == start.chunk_overlap,
                d.kernel == start.kernel,
                d.encoder == start.encoder,
                d.ann == start.ann,
                d.chunks@.len() == i,
                forall|j: int| 0 <= j < i ==> (#[trigger] d.chunks@[j])@ == snap.chunks@[j]@,
            decreases snap.chunks@.len() - i,
        {
            let c = &snap.chunks[i];
            let chunk = Chunk::new(
                c.id.clone(),
                c.doc_id.clone(),
                c.idx,
                &c.text,
                c.embedding.clone(),
            );
            assert(chunk@ =~= c@);
            d.chunks.push(chunk);
            i += 1;
        }
        assert(d@.chunks =~= snap@.chunks);
        let ghost filled = d@;
        let mut j: usize = 0;
        assert(snap@.documents.take(0).len() == 0);
        assert(d@ =~= LibraryState { documents: entries_put(snap@.documents.take(0)), ..filled });
        while j < snap.documents.len()
            invariant
                j <= snap.documents@.len(),
                d@.valid(),
                d.arithmetic() == start.arithmetic(),
                d.coder() == start.coder(),
                d.finder() == start.finder(),
                d@ == (LibraryState {
                    documents: entries_put(snap@.documents.take(j as int)),
                    ..filled
                }),
            decreases snap.documents@.len() - j,
        {
            assert(snap@.documents.take(j + 1).drop_last() =~= snap@.documents.take(j as int));
            assert(snap@.documents.take(j + 1).last() == snap.documents@[j as int]@);
            d.put_entry(snap.documents[j].copy());
            j += 1;
        }
        assert(snap@.documents.take(j as int) =~= snap@.documents);
        d.rebuild_ann();
        assert(d@ =~= goal);
        proof {
            if snap@.owned() {
                restoring_keeps_chunks_owned(snap@);
            }
        }
        Ok(d)
    }
}

} // verus!
