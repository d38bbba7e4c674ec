//! The archive store: the single in-memory authority over published
//! documents.
//!
//! A document's id is its position in the order of publication, so the
//! next unused id is always the document count: ids start at zero, grow by
//! one per publish, and are never reused (nothing is ever deleted).  The
//! word index is derived data, always determined by the stored documents;
//! `search` answers from the documents under the same splitting rule that
//! governs indexing, so index and document table can never disagree.

use vstd::prelude::*;
use crate::text::{contains_word, text_contains_word, str_chars};

verus! {

/// The in-memory document archive.  Its mathematical value is the
/// sequence of published document texts, in order of publication.
pub struct Archive {
    docs: Vec<String>,
}

/// `ids` lists, in strictly ascending order, exactly the ids of the
/// documents in `docs` that contain `word` as a token.
pub open spec fn is_search_result(docs: Seq<Seq<char>>, word: Seq<char>, ids: Seq<usize>) -> bool {
    &&& forall|a: int, b: int| 0 <= a < b < ids.len() ==> ids[a] < ids[b]
    &&& forall|j: int| 0 <= j < ids.len() ==> ids[j] < docs.len() && contains_word(
        docs[#[trigger] ids[j] as int],
        word,
    )
    &&& forall|i: int| 0 <= i < docs.len() && contains_word(#[trigger] docs[i], word)
        ==> ids.contains(i as usize)
}

impl View for Archive {
    type V = Seq<Seq<char>>;

    closed spec fn view(&self) -> Seq<Seq<char>> {
        Seq::new(self.docs@.len(), |i: int| self.docs@[i]@)
    }
}

impl Archive {
    /// An archive holding no documents.
    pub fn new() -> (a: Archive)
        ensures
            a@ == Seq::<Seq<char>>::empty(),
    {
        let a = Archive { docs: Vec::new() };
        proof {
            assert(a@ =~= Seq::<Seq<char>>::empty());
        }
        a
    }

    /// How many documents the archive holds.  The ids issued so far are
    /// exactly those below this count.
    pub fn doc_count(&self) -> (n: usize)
        ensures
            n == self@.len(),
    {
        self.docs.len()
    }

    /// Stores `doc` under the next unused id and returns that id: the
    /// count of documents published before it.  Never rejects a document,
    /// empty or duplicate ones included.
    pub fn publish(&mut self, doc: String) -> (id: usize)
        requires
            old(self)@.len() < usize::MAX,
        ensures
            final(self)@ == old(self)@.push(doc@),
            id == old(self)@.len(),
    {
        let id = self.docs.len();
        self.docs.push(doc);
        proof {
            assert(self@ =~= old(self)@.push(doc@));
        }
        id
    }

    /// The text stored under `id`, exactly as published, or nothing if
    /// and only if no document has that id.
    pub fn retrieve(&self, id: usize) -> (r: Option<String>)
        ensures
            match r {
                Some(d) => id < self@.len() && d@ == self@[id as int],
                None => id >= self@.len(),
            },
    {
        if id < self.docs.len() {
            Some(self.docs[id].clone())
        } else {
            None
        }
    }

    /// The ids of the documents containing `word` as a token, in strictly
    /// ascending order.  Always succeeds; a word no document contains, an
    /// empty word and a word holding a non-word character all yield the
    /// empty list.
    pub fn search(&self, word: &str) -> (ids: Vec<usize>)
        ensures
            is_search_result(self@, word@, ids@),
    {
        let w = str_chars(word);
        let mut ids: Vec<usize> = Vec::new();
        let mut i: usize = 0;
        while i < self.docs.len()
            invariant
                i <= self.docs@.len(),
                w@ == word@,
                self@.len() == self.docs@.len(),
                forall|a: int, b: int| 0 <= a < b < ids@.len() ==> ids@[a] < ids@[b],
                forall|j: int| 0 <= j < ids@.len() ==> ids@[j] < i && contains_word(
                    self@[#[trigger] ids@[j] as int],
                    word@,
                ),
                forall|q: int| 0 <= q < i && contains_word(#[trigger] self@[q], word@)
                    ==> ids@.contains(q as usize),
            decreases self.docs@.len() - i,
        {
            let d = str_chars(self.docs[i].as_str());
            proof {
                assert(d@ == self@[i as int]);
            }
            let ghost ids0 = ids@;
            if text_contains_word(d.as_slice(), w.as_slice()) {
                ids.push(i);
                proof {
                    assert(ids@.last() == i);
                    assert(ids@.contains(i as usize));
                    assert forall|q: int| 0 <= q < i as int + 1 && contains_word(
                        #[trigger] self@[q],
                        word@,
                    ) implies ids@.contains(q as usize) by {
                        if q < i as int {
                            let k = choose|k: int|
                                0 <= k < ids0.len() && ids0[k] == q as usize;
                            assert(ids@[k] == q as usize);
                        } else {
                            assert(ids@.last() == q as usize);
                        }
                    }
                }
            }
            i = i + 1;
        }
        ids
    }
}

/// The inverted index is derived data, determined by the documents alone:
/// the entry for `word` is the set of ids of the documents containing it.
pub open spec fn index_ids(docs: Seq<Seq<char>>, word: Seq<char>) -> Set<usize> {
    Set::new(|i: usize| i < docs.len() && contains_word(docs[i as int], word))
}

/// The archive invariants, true of the derived index by construction:
/// every id in an index entry names a stored document, and an id stands
/// in the entry for `word` exactly when that document's text contains
/// `word`; a word no document contains has an empty entry.
pub proof fn lemma_index_consistent(docs: Seq<Seq<char>>, word: Seq<char>)
    ensures
        forall|i: usize| index_ids(docs, word).contains(i) ==> i < docs.len(),
        forall|i: usize| i < docs.len() ==> (index_ids(docs, word).contains(i) <==> contains_word(
            docs[i as int],
            word,
        )),
{
}

/// What `search` returns is exactly the index entry for the word: the
/// listed ids are the members of `index_ids`, each exactly once.
pub proof fn lemma_search_result_matches_index(
    docs: Seq<Seq<char>>,
    word: Seq<char>,
    ids: Seq<usize>,
)
    requires
        is_search_result(docs, word, ids),
    ensures
        forall|i: usize| #[trigger] index_ids(docs, word).contains(i) <==> ids.contains(i),
{
    assert forall|i: usize| #[trigger] index_ids(docs, word).contains(i) <==> ids.contains(i) by {
        if index_ids(docs, word).contains(i) {
            assert(contains_word(docs[i as int], word));
        }
        if ids.contains(i) {
            let k = choose|k: int| 0 <= k < ids.len() && ids[k] == i;
            assert(ids[k] < docs.len() && contains_word(docs[ids[k] as int], word));
        }
    }
}

/// Publish/retrieve consistency: once a publish has stored `text` at the
/// id it returned, that position holds `text` after any run of later
/// publishes, so every later retrieve of the id yields `text` exactly.
pub proof fn lemma_publish_retrieve_consistent(
    docs: Seq<Seq<char>>,
    text: Seq<char>,
    later: Seq<Seq<char>>,
)
    ensures
        docs.len() < (docs.push(text) + later).len(),
        (docs.push(text) + later)[docs.len() as int] == text,
{
    assert((docs.push(text) + later)[docs.len() as int] == docs.push(text)[docs.len() as int]);
}

/// The ids that a run of `count` publishes returns, starting from an
/// archive of `len0` documents: each publish returns the document count
/// at its turn.
pub open spec fn publish_ids(len0: nat, count: nat) -> Seq<nat> {
    Seq::new(count, |i: int| (len0 + i) as nat)
}

/// Id monotonicity: across any sequence of publishes the returned ids
/// are strictly increasing, so no id is ever issued twice.
pub proof fn lemma_publish_ids_strictly_increasing(len0: nat, count: nat)
    ensures
        forall|a: int, b: int| 0 <= a < b < count ==> publish_ids(len0, count)[a] < publish_ids(
            len0,
            count,
        )[b],
{
}

/// Not-found: an id that no publish of a run from an empty archive ever
/// returned lies at or above the document count, where `retrieve` answers
/// with nothing.
pub proof fn lemma_unissued_id_above_count(count: nat, id: nat)
    requires
        forall|i: int| 0 <= i < count ==> publish_ids(0, count)[i] != id,
    ensures
        id >= count,
{
    if id < count {
        assert(publish_ids(0, count)[id as int] == id);
    }
}

} // verus!
