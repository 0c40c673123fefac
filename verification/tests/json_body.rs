use searcher_http::json::{Book, SearchResult, encode_search_result};
use searcher_http::round_trip::parse_search_result_bytes;

fn book(title: &str, author: &str, extension: &str, filesize: u64) -> Book {
    Book {
        title: title.to_string(),
        author: author.to_string(),
        extension: extension.to_string(),
        filesize,
    }
}

#[test]
fn empty_result_encodes_exactly() {
    let body = encode_search_result(&SearchResult { books: Vec::new() });
    assert_eq!(body.as_slice(), b"{\"books\":[]}");
}

#[test]
fn one_record_encodes_exactly() {
    let body = encode_search_result(
        &SearchResult { books: vec![book("The Rust Book", "Steve", "epub", 1024)] },
    );
    let expected =
        b"{\"books\":[{\"title\":\"The Rust Book\",\"author\":\"Steve\",\"extension\":\"epub\",\"filesize\":1024}]}";
    assert_eq!(body.as_slice(), expected.as_slice());
}

#[test]
fn quotes_and_backslashes_are_escaped() {
    let body = encode_search_result(
        &SearchResult { books: vec![book("a\"b\\c", "x", "pdf", 7)] },
    );
    let expected =
        b"{\"books\":[{\"title\":\"a\\\"b\\\\c\",\"author\":\"x\",\"extension\":\"pdf\",\"filesize\":7}]}";
    assert_eq!(body.as_slice(), expected.as_slice());
}

#[test]
fn control_bytes_are_escaped() {
    let body = encode_search_result(
        &SearchResult { books: vec![book("a\nb", "x", "pdf", 0)] },
    );
    let expected =
        b"{\"books\":[{\"title\":\"a\\u000ab\",\"author\":\"x\",\"extension\":\"pdf\",\"filesize\":0}]}";
    assert_eq!(body.as_slice(), expected.as_slice());
}

#[test]
fn round_trip_preserves_records_and_order() {
    let books = vec![
        book("Alpha", "A. Author", "epub", 1),
        book("Beta \"quoted\"", "B\\slash", "pdf", 18446744073709551615),
        book("caf\u{e9}\tnote", "C", "mobi", 300),
    ];
    let original = SearchResult { books };
    let body = encode_search_result(&original);
    let parsed = parse_search_result_bytes(body.as_slice()).unwrap();
    assert_eq!(parsed.books.len(), 3);
    for (p, o) in parsed.books.iter().zip(original.books.iter()) {
        assert_eq!(p.title, o.title);
        assert_eq!(p.author, o.author);
        assert_eq!(p.extension, o.extension);
        assert_eq!(p.filesize, o.filesize);
    }
}

#[test]
fn round_trip_of_empty_result() {
    let body = encode_search_result(&SearchResult { books: Vec::new() });
    let parsed = parse_search_result_bytes(body.as_slice()).unwrap();
    assert_eq!(parsed.books.len(), 0);
}

#[test]
fn serde_json_reads_the_body_back() {
    let books = vec![
        book("First", "A", "epub", 10),
        book("Second", "B", "pdf", 20),
        book("Third \u{263a}", "C\"q\"", "azw3", 30),
        book("Fourth", "D", "txt", 40),
    ];
    let body = encode_search_result(&SearchResult { books });
    let v: serde_json::Value = serde_json::from_slice(&body).unwrap();
    let arr = v.get("books").unwrap().as_array().unwrap();
    assert_eq!(arr.len(), 4);
    assert_eq!(arr[0].get("title").unwrap().as_str().unwrap(), "First");
    assert_eq!(arr[1].get("title").unwrap().as_str().unwrap(), "Second");
    assert_eq!(arr[2].get("title").unwrap().as_str().unwrap(), "Third \u{263a}");
    assert_eq!(arr[2].get("author").unwrap().as_str().unwrap(), "C\"q\"");
    assert_eq!(arr[3].get("filesize").unwrap().as_u64().unwrap(), 40);
}

#[test]
fn parser_rejects_trailing_bytes() {
    let mut body = encode_search_result(&SearchResult { books: Vec::new() });
    body.push(b' ');
    assert!(parse_search_result_bytes(body.as_slice()).is_none());
}

#[test]
fn parser_rejects_invalid_utf8_title() {
    let mut body: Vec<u8> = Vec::new();
    body.extend_from_slice(b"{\"books\":[{\"title\":\"");
    body.push(0xFF);
    body.extend_from_slice(b"\",\"author\":\"a\",\"extension\":\"e\",\"filesize\":1}]}");
    assert!(parse_search_result_bytes(body.as_slice()).is_none());
}

#[test]
fn parser_rejects_other_shapes() {
    assert!(parse_search_result_bytes(b"{}").is_none());
    assert!(parse_search_result_bytes(b"").is_none());
    assert!(parse_search_result_bytes(b"{\"books\":[]").is_none());
}
