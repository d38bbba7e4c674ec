//! The whole request/response cycle over bytes, as a connection handler
//! drives it: decode one request, dispatch it against the shared archive,
//! encode the one response owed.

use ngram::archive::Archive;
use ngram::handler::handle_request;
use ngram::message::{Request, Response};

fn round_trip_request(req: Request) -> Request {
    let bytes = req.to_bytes();
    Request::from_bytes(&bytes).expect("a freshly encoded request decodes")
}

fn answer(archive: &mut Archive, wire: &[u8]) -> Vec<u8> {
    let (req, used) = Request::read_from(wire).expect("a complete request");
    assert_eq!(used, wire.len());
    assert!(archive.doc_count() < usize::MAX);
    let resp = handle_request(archive, req);
    resp.to_bytes()
}

#[test]
fn end_to_end_scenario() {
    let mut archive = Archive::new();

    let wire = Request::Publish { doc: String::from("hello world") }.to_bytes();
    let resp = Response::from_bytes(&answer(&mut archive, &wire));
    assert_eq!(resp, Some(Response::PublishSuccess(0)));

    let wire = Request::Publish { doc: String::from("hello there") }.to_bytes();
    let resp = Response::from_bytes(&answer(&mut archive, &wire));
    assert_eq!(resp, Some(Response::PublishSuccess(1)));

    let wire = Request::Search { word: String::from("hello") }.to_bytes();
    let resp = Response::from_bytes(&answer(&mut archive, &wire));
    assert_eq!(resp, Some(Response::SearchSuccess(vec![0, 1])));

    let wire = Request::Retrieve { id: 0 }.to_bytes();
    let resp = Response::from_bytes(&answer(&mut archive, &wire));
    assert_eq!(resp, Some(Response::RetrieveSuccess(String::from("hello world"))));

    let wire = Request::Retrieve { id: 5 }.to_bytes();
    let encoded = answer(&mut archive, &wire);
    assert_eq!(encoded, vec![3u8]);
    assert_eq!(Response::from_bytes(&encoded), Some(Response::Failure));
}

#[test]
fn handler_answers_search_without_changing_archive() {
    let mut archive = Archive::new();
    archive.publish(String::from("alpha beta"));
    let before = archive.doc_count();
    let resp = handle_request(&mut archive, Request::Search { word: String::from("beta") });
    assert_eq!(resp, Response::SearchSuccess(vec![0]));
    assert_eq!(archive.doc_count(), before);
}

#[test]
fn handler_reports_failure_only_for_unissued_ids() {
    let mut archive = Archive::new();
    archive.publish(String::from("kept"));
    let hit = handle_request(&mut archive, Request::Retrieve { id: 0 });
    assert_eq!(hit, Response::RetrieveSuccess(String::from("kept")));
    let miss = handle_request(&mut archive, Request::Retrieve { id: 1 });
    assert_eq!(miss, Response::Failure);
}

#[test]
fn malformed_request_bytes_never_reach_the_handler() {
    let mut bytes = Request::Publish { doc: String::from("good") }.to_bytes();
    bytes.truncate(bytes.len() - 1);
    assert_eq!(Request::read_from(&bytes), None);
    assert_eq!(Request::from_bytes(&bytes), None);
}

#[test]
fn a_connection_handles_many_requests_in_order() {
    let mut archive = Archive::new();
    let mut stream = Vec::new();
    stream.extend(Request::Publish { doc: String::from("one fish") }.to_bytes());
    stream.extend(Request::Publish { doc: String::from("two fish") }.to_bytes());
    stream.extend(Request::Search { word: String::from("fish") }.to_bytes());

    let mut responses = Vec::new();
    let mut cursor = 0;
    while cursor < stream.len() {
        let (req, used) = Request::read_from(&stream[cursor..]).expect("next request");
        cursor += used;
        assert!(archive.doc_count() < usize::MAX);
        responses.push(handle_request(&mut archive, req));
    }
    assert_eq!(
        responses,
        vec![
            Response::PublishSuccess(0),
            Response::PublishSuccess(1),
            Response::SearchSuccess(vec![0, 1]),
        ]
    );
}

#[test]
fn decoded_request_equals_sent_request() {
    let reqs = vec![
        Request::Publish { doc: String::from("any text at all") },
        Request::Search { word: String::from("needle") },
        Request::Retrieve { id: usize::MAX },
    ];
    for req in reqs {
        let copy = round_trip_request(req);
        let again = round_trip_request(copy);
        let bytes = again.to_bytes();
        assert_eq!(Request::from_bytes(&bytes), Some(again));
    }
}
