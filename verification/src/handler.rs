//! Dispatch of one decoded request against the archive store.
//!
//! This is the computing half of a connection's request/response cycle:
//! the surrounding loop reads bytes from the stream, decodes one request,
//! hands it here, encodes the response this returns, and writes it back.
//! Exactly one response is owed per decoded request: a publish always
//! answers with the new id, a search always with the matching ids, and a
//! retrieve with the document or, for an unissued id, with failure.

use vstd::prelude::*;
use crate::archive::{Archive, is_search_result};
use crate::message::{Request, RequestView, Response, ResponseView};

verus! {

/// Applies `req` to the archive and returns the one response owed for it.
pub fn handle_request(archive: &mut Archive, req: Request) -> (resp: Response)
    requires
        req@ is Publish ==> old(archive)@.len() < usize::MAX,
    ensures
        match req@ {
            RequestView::Publish { doc } => final(archive)@ == old(archive)@.push(doc) && resp@
                == ResponseView::PublishSuccess(old(archive)@.len() as usize),
            RequestView::Search { word } => final(archive)@ == old(archive)@ && (resp@ matches
                ResponseView::SearchSuccess(ids) && is_search_result(old(archive)@, word, ids)),
            RequestView::Retrieve { id } => final(archive)@ == old(archive)@ && (if (id as int)
                < old(archive)@.len() {
                resp@ == ResponseView::RetrieveSuccess(old(archive)@[id as int])
            } else {
                resp@ == ResponseView::Failure
            }),
        },
{
    match req {
        Request::Publish { doc } => {
            let id = archive.publish(doc);
            Response::PublishSuccess(id)
        },
        Request::Search { word } => {
            let ids = archive.search(word.as_str());
            Response::SearchSuccess(ids)
        },
        Request::Retrieve { id } => {
            match archive.retrieve(id) {
                Some(doc) => Response::RetrieveSuccess(doc),
                None => Response::Failure,
            }
        },
    }
}

} // verus!
