use ngram::message::{Request, Response};
use quickcheck::quickcheck;

fn round_trip_request(s: String, n: usize) {
    let pub_request = Request::Publish { doc: s.clone() };
    let search_request = Request::Search { word: s };
    let retrieve_request = Request::Retrieve { id: n };
    assert_eq!(
        Request::from_bytes(&pub_request.to_bytes()[..]).unwrap(),
        pub_request
    );
    assert_eq!(
        Request::from_bytes(&search_request.to_bytes()[..]).unwrap(),
        search_request
    );
    assert_eq!(
        Request::from_bytes(&retrieve_request.to_bytes()[..]).unwrap(),
        retrieve_request
    );
}

fn round_trip_response(s: String, n: usize) {
    let pub_response = Response::PublishSuccess(n);
    let search_response = Response::SearchSuccess(vec![n]);
    let retrieve_response = Response::RetrieveSuccess(s.clone());
    assert_eq!(
        Response::from_bytes(&pub_response.to_bytes()[..]).unwrap(),
        pub_response
    );
    assert_eq!(
        Response::from_bytes(&search_response.to_bytes()[..]).unwrap(),
        search_response
    );
    assert_eq!(
        Response::from_bytes(&retrieve_response.to_bytes()[..]).unwrap(),
        retrieve_response
    );
}

#[test]
fn test_round_trip_request_5() {
    quickcheck(round_trip_request as fn(String, usize));
}

#[test]
fn test_round_trip_response_5() {
    quickcheck(round_trip_response as fn(String, usize));
}

#[test]
fn publish_request_bytes() {
    let r = Request::Publish { doc: "hé".to_string() };
    assert_eq!(r.to_bytes(), vec![0, 0, 0, 0, 0, 0, 0, 0, 3, b'h', 0xC3, 0xA9]);
}

#[test]
fn search_request_bytes() {
    let r = Request::Search { word: "ab".to_string() };
    assert_eq!(r.to_bytes(), vec![1, 0, 0, 0, 0, 0, 0, 0, 2, b'a', b'b']);
}

#[test]
fn retrieve_request_bytes() {
    let r = Request::Retrieve { id: 0x0102030405060708 };
    assert_eq!(r.to_bytes(), vec![2, 1, 2, 3, 4, 5, 6, 7, 8]);
}

#[test]
fn response_bytes() {
    assert_eq!(Response::PublishSuccess(258).to_bytes(), vec![0, 0, 0, 0, 0, 0, 0, 1, 2]);
    assert_eq!(
        Response::SearchSuccess(vec![1, 256]).to_bytes(),
        vec![1, 0, 0, 0, 0, 0, 0, 0, 2, 0, 0, 0, 0, 0, 0, 0, 1, 0, 0, 0, 0, 0, 0, 1, 0]
    );
    assert_eq!(
        Response::RetrieveSuccess("x".to_string()).to_bytes(),
        vec![2, 0, 0, 0, 0, 0, 0, 0, 1, b'x']
    );
    assert_eq!(Response::Failure.to_bytes(), vec![3]);
}

#[test]
fn decoding_ignores_trailing_bytes() {
    let mut bytes = Request::Search { word: "cat".to_string() }.to_bytes();
    bytes.extend_from_slice(&[9, 9, 9]);
    assert_eq!(
        Request::from_bytes(&bytes[..]),
        Some(Request::Search { word: "cat".to_string() })
    );
    let mut bytes = Response::Failure.to_bytes();
    bytes.push(0);
    assert_eq!(Response::from_bytes(&bytes[..]), Some(Response::Failure));
}

#[test]
fn invalid_requests_are_none() {
    assert_eq!(Request::from_bytes(&[]), None);
    assert_eq!(Request::from_bytes(&[3]), None);
    assert_eq!(Request::from_bytes(&[2, 0, 0, 0]), None);
    assert_eq!(Request::from_bytes(&[0, 0, 0, 0, 0, 0, 0, 0]), None);
    assert_eq!(Request::from_bytes(&[0, 0, 0, 0, 0, 0, 0, 0, 5, b'a', b'b']), None);
    assert_eq!(Request::from_bytes(&[1, 0, 0, 0, 0, 0, 0, 0, 1, 0xFF]), None);
    assert_eq!(
        Request::from_bytes(&[0, 0xFF, 0xFF, 0xFF, 0xFF, 0xFF, 0xFF, 0xFF, 0xFF]),
        None
    );
}

#[test]
fn invalid_responses_are_none() {
    assert_eq!(Response::from_bytes(&[]), None);
    assert_eq!(Response::from_bytes(&[4]), None);
    assert_eq!(Response::from_bytes(&[0, 1, 2]), None);
    assert_eq!(Response::from_bytes(&[1, 0, 0, 0, 0, 0, 0, 0, 1, 0, 0]), None);
    assert_eq!(
        Response::from_bytes(&[1, 0x7F, 0xFF, 0xFF, 0xFF, 0xFF, 0xFF, 0xFF, 0xFF]),
        None
    );
    assert_eq!(Response::from_bytes(&[2, 0, 0, 0, 0, 0, 0, 0, 2, 0xC3, 0x28]), None);
}

#[test]
fn decoding_reads_fixed_bytes() {
    assert_eq!(
        Request::from_bytes(&[2, 0, 0, 0, 0, 0, 0, 1, 0]),
        Some(Request::Retrieve { id: 256 })
    );
    assert_eq!(
        Response::from_bytes(&[1, 0, 0, 0, 0, 0, 0, 0, 0]),
        Some(Response::SearchSuccess(vec![]))
    );
    assert_eq!(
        Request::from_bytes(&[0, 0, 0, 0, 0, 0, 0, 0, 2, 0xC3, 0xA9]),
        Some(Request::Publish { doc: "é".to_string() })
    );
}

#[test]
fn round_trip_of_long_search_result() {
    let ids: Vec<usize> = (0..1000).map(|i| i * 7919).collect();
    let r = Response::SearchSuccess(ids);
    assert_eq!(Response::from_bytes(&r.to_bytes()[..]), Some(r));
}

#[test]
fn shown_responses() {
    assert_eq!(
        Response::PublishSuccess(42).to_string(),
        "PublishSuccess(Document ID: 42)"
    );
    assert_eq!(
        Response::PublishSuccess(0).to_string(),
        "PublishSuccess(Document ID: 0)"
    );
    assert_eq!(
        Response::SearchSuccess(vec![3, 10, 250]).to_string(),
        "SearchSuccess(Document IDs: [3, 10, 250])"
    );
    assert_eq!(
        Response::SearchSuccess(vec![]).to_string(),
        "SearchSuccess(Document IDs: [])"
    );
    assert_eq!(
        Response::RetrieveSuccess("short".to_string()).to_string(),
        "RetrieveSuccess(\"short\")"
    );
    assert_eq!(Response::Failure.to_string(), "Response: Failure");
}

#[test]
fn shown_document_is_cut_after_100_characters() {
    let doc = "a".repeat(150);
    let expected = format!("RetrieveSuccess(\"{}...\")", "a".repeat(100));
    assert_eq!(Response::RetrieveSuccess(doc).to_string(), expected);
    let exact = "b".repeat(100);
    assert_eq!(
        Response::RetrieveSuccess(exact.clone()).to_string(),
        format!("RetrieveSuccess(\"{}\")", exact)
    );
    let wide = format!("{}é{}", "c".repeat(98), "d".repeat(10));
    assert_eq!(
        Response::RetrieveSuccess(wide).to_string(),
        format!("RetrieveSuccess(\"{}éd...\")", "c".repeat(98))
    );
    let accents = format!("a{}", "é".repeat(60));
    assert_eq!(
        Response::RetrieveSuccess(accents.clone()).to_string(),
        format!("RetrieveSuccess(\"{}\")", accents)
    );
    let long_accents = "é".repeat(101);
    assert_eq!(
        Response::RetrieveSuccess(long_accents).to_string(),
        format!("RetrieveSuccess(\"{}...\")", "é".repeat(100))
    );
}
