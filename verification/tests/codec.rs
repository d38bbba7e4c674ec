use ngram::message::{request_never_decodable, response_never_decodable, Request, Response};

fn be8(x: u64) -> Vec<u8> {
    x.to_be_bytes().to_vec()
}

#[test]
fn request_publish_round_trip() {
    let req = Request::Publish { doc: String::from("hello world") };
    let bytes = req.to_bytes();
    assert_eq!(Request::from_bytes(&bytes), Some(req));
}

#[test]
fn request_search_round_trip() {
    let req = Request::Search { word: String::from("cat") };
    let bytes = req.to_bytes();
    assert_eq!(Request::from_bytes(&bytes), Some(req));
}

#[test]
fn request_retrieve_round_trip() {
    let req = Request::Retrieve { id: 42 };
    let bytes = req.to_bytes();
    assert_eq!(Request::from_bytes(&bytes), Some(req));
}

#[test]
fn request_empty_doc_round_trip() {
    let req = Request::Publish { doc: String::new() };
    let bytes = req.to_bytes();
    assert_eq!(bytes, {
        let mut b = vec![0u8];
        b.extend(be8(0));
        b
    });
    assert_eq!(Request::from_bytes(&bytes), Some(req));
}

#[test]
fn request_unicode_round_trip() {
    let req = Request::Publish { doc: String::from("h\u{e9}llo w\u{f6}rld \u{2713}") };
    let bytes = req.to_bytes();
    assert_eq!(Request::from_bytes(&bytes), Some(req));
}

#[test]
fn response_publish_success_round_trip() {
    let resp = Response::PublishSuccess(7);
    let bytes = resp.to_bytes();
    assert_eq!(Response::from_bytes(&bytes), Some(resp));
}

#[test]
fn response_search_success_round_trip() {
    let resp = Response::SearchSuccess(vec![0, 3, 9]);
    let bytes = resp.to_bytes();
    assert_eq!(Response::from_bytes(&bytes), Some(resp));
}

#[test]
fn response_search_success_empty_round_trip() {
    let resp = Response::SearchSuccess(Vec::new());
    let bytes = resp.to_bytes();
    assert_eq!(bytes, {
        let mut b = vec![1u8];
        b.extend(be8(0));
        b
    });
    assert_eq!(Response::from_bytes(&bytes), Some(resp));
}

#[test]
fn response_retrieve_success_round_trip() {
    let resp = Response::RetrieveSuccess(String::from("the cat sat"));
    let bytes = resp.to_bytes();
    assert_eq!(Response::from_bytes(&bytes), Some(resp));
}

#[test]
fn response_failure_round_trip() {
    let resp = Response::Failure;
    let bytes = resp.to_bytes();
    assert_eq!(bytes, vec![3u8]);
    assert_eq!(Response::from_bytes(&bytes), Some(resp));
}

#[test]
fn request_publish_exact_layout() {
    let req = Request::Publish { doc: String::from("A") };
    assert_eq!(req.to_bytes(), vec![0, 0, 0, 0, 0, 0, 0, 0, 1, 65]);
}

#[test]
fn request_search_exact_layout() {
    let req = Request::Search { word: String::from("ab") };
    assert_eq!(req.to_bytes(), vec![1, 0, 0, 0, 0, 0, 0, 0, 2, 97, 98]);
}

#[test]
fn request_retrieve_exact_layout() {
    let req = Request::Retrieve { id: 5 };
    assert_eq!(req.to_bytes(), vec![2, 0, 0, 0, 0, 0, 0, 0, 5]);
}

#[test]
fn response_search_success_exact_layout() {
    let resp = Response::SearchSuccess(vec![7, 260]);
    let mut expected = vec![1u8];
    expected.extend(be8(2));
    expected.extend(be8(7));
    expected.extend(be8(260));
    assert_eq!(resp.to_bytes(), expected);
}

#[test]
fn request_truncation_yields_none() {
    let samples = vec![
        Request::Publish { doc: String::from("hello world") },
        Request::Search { word: String::from("cat") },
        Request::Retrieve { id: 123456 },
    ];
    for req in samples {
        let bytes = req.to_bytes();
        for k in 0..bytes.len() {
            assert_eq!(Request::from_bytes(&bytes[..k]), None);
            assert_eq!(Request::read_from(&bytes[..k]), None);
        }
    }
}

#[test]
fn response_truncation_yields_none() {
    let samples = vec![
        Response::PublishSuccess(9),
        Response::SearchSuccess(vec![1, 2, 3]),
        Response::RetrieveSuccess(String::from("hello there")),
    ];
    for resp in samples {
        let bytes = resp.to_bytes();
        for k in 0..bytes.len() {
            assert_eq!(Response::from_bytes(&bytes[..k]), None);
            assert_eq!(Response::read_from(&bytes[..k]), None);
        }
    }
}

#[test]
fn request_unknown_tag_yields_none() {
    let mut bytes = vec![9u8];
    bytes.extend(be8(0));
    assert_eq!(Request::from_bytes(&bytes), None);
}

#[test]
fn response_unknown_tag_yields_none() {
    let mut bytes = vec![4u8];
    bytes.extend(be8(0));
    assert_eq!(Response::from_bytes(&bytes), None);
}

#[test]
fn request_invalid_utf8_yields_none() {
    let mut bytes = vec![0u8];
    bytes.extend(be8(1));
    bytes.push(0xFF);
    assert_eq!(Request::from_bytes(&bytes), None);
}

#[test]
fn response_invalid_utf8_yields_none() {
    let mut bytes = vec![2u8];
    bytes.extend(be8(2));
    bytes.extend([0xC3, 0x28]);
    assert_eq!(Response::from_bytes(&bytes), None);
}

#[test]
fn request_declared_length_too_long_yields_none() {
    let mut bytes = vec![1u8];
    bytes.extend(be8(10));
    bytes.extend(b"cat");
    assert_eq!(Request::from_bytes(&bytes), None);
}

#[test]
fn request_trailing_bytes_yield_none() {
    let mut bytes = Request::Retrieve { id: 1 }.to_bytes();
    bytes.push(0);
    assert_eq!(Request::from_bytes(&bytes), None);
}

#[test]
fn response_count_beyond_available_yields_none() {
    let mut bytes = vec![1u8];
    bytes.extend(be8(3));
    bytes.extend(be8(0));
    assert_eq!(Response::from_bytes(&bytes), None);
}

#[test]
fn bad_tag_is_hopeless_but_truncation_is_not() {
    assert!(request_never_decodable(&[9u8]));
    assert!(response_never_decodable(&[200u8, 1, 2]));
    // tag 3 is a response tag but no request tag
    assert!(request_never_decodable(&[3u8]));
    assert!(!response_never_decodable(&[3u8]));
    // a truncated but well-tagged message may still be completed
    assert!(!request_never_decodable(&[0u8, 0, 0]));
    assert!(!request_never_decodable(&[]));
}

#[test]
fn read_from_consumes_one_message_at_a_time() {
    let first = Request::Publish { doc: String::from("one") };
    let second = Request::Retrieve { id: 8 };
    let mut stream = first.to_bytes();
    stream.extend(second.to_bytes());

    let (got_first, used) = Request::read_from(&stream).expect("first message");
    assert_eq!(got_first, first);
    let (got_second, used2) = Request::read_from(&stream[used..]).expect("second message");
    assert_eq!(got_second, second);
    assert_eq!(used + used2, stream.len());
}

#[test]
fn response_read_from_reports_consumed_length() {
    let resp = Response::RetrieveSuccess(String::from("doc"));
    let mut stream = resp.to_bytes();
    let full = stream.len();
    stream.extend([3u8, 3u8]);

    let (got, used) = Response::read_from(&stream).expect("first message");
    assert_eq!(got, resp);
    assert_eq!(used, full);
    let (tail, tail_used) = Response::read_from(&stream[used..]).expect("second message");
    assert_eq!(tail, Response::Failure);
    assert_eq!(tail_used, 1);
}
