use searcher_http::json::{Book, SearchResult};
use searcher_http::query::parse_search_query;
use searcher_http::reply::{bind_error_reply, engine_error_reply, health_reply, search_reply};

/// A stand-in engine that records what it was asked and answers a fixed
/// list of records for a known query.
struct StubEngine {
    called_with: std::cell::RefCell<Vec<(String, usize)>>,
}

impl StubEngine {
    fn new() -> Self {
        StubEngine { called_with: std::cell::RefCell::new(Vec::new()) }
    }

    fn search(&self, query: &str, limit: usize) -> Vec<Book> {
        self.called_with.borrow_mut().push((query.to_string(), limit));
        if query == "rust" {
            (0..5)
                .map(|i| Book {
                    title: format!("Rust Book {}", i),
                    author: format!("Author {}", i),
                    extension: "epub".to_string(),
                    filesize: 1000 + i,
                })
                .collect()
        } else {
            Vec::new()
        }
    }

    fn calls(&self) -> Vec<(String, usize)> {
        self.called_with.borrow().clone()
    }
}

/// The search route as the application drives it: bind, then ask the
/// engine, then serialise.
fn drive_search(engine: &StubEngine, raw: &[u8]) -> searcher_http::reply::HttpReply {
    match parse_search_query(raw) {
        Ok(q) => {
            let books = engine.search(&q.query, q.limit);
            search_reply(&SearchResult { books })
        },
        Err(e) => bind_error_reply(e),
    }
}

#[test]
fn health_check_is_empty_success() {
    let r = health_reply();
    assert_eq!(r.status, 200);
    assert!(r.body.is_empty());
}

#[test]
fn search_with_limit_five_returns_stub_records_in_order() {
    let engine = StubEngine::new();
    let reply = drive_search(&engine, b"query=rust&limit=5");
    assert_eq!(engine.calls(), vec![("rust".to_string(), 5)]);
    assert_eq!(reply.status, 200);
    assert!(reply.json_body);
    let v: serde_json::Value = serde_json::from_slice(&reply.body).unwrap();
    let arr = v.get("books").unwrap().as_array().unwrap();
    assert_eq!(arr.len(), 5);
    for (i, item) in arr.iter().enumerate() {
        assert_eq!(
            item.get("title").unwrap().as_str().unwrap(),
            format!("Rust Book {}", i)
        );
        assert_eq!(
            item.get("author").unwrap().as_str().unwrap(),
            format!("Author {}", i)
        );
        assert_eq!(item.get("filesize").unwrap().as_u64().unwrap(), 1000 + i as u64);
    }
}

#[test]
fn omitted_limit_reaches_engine_as_thirty() {
    let engine = StubEngine::new();
    let reply = drive_search(&engine, b"query=test");
    assert_eq!(engine.calls(), vec![("test".to_string(), 30)]);
    assert_eq!(reply.status, 200);
}

#[test]
fn missing_query_never_reaches_engine() {
    let engine = StubEngine::new();
    let reply = drive_search(&engine, b"limit=3");
    assert!(engine.calls().is_empty());
    assert_eq!(reply.status, 400);
}

#[test]
fn non_numeric_limit_never_reaches_engine() {
    let engine = StubEngine::new();
    let reply = drive_search(&engine, b"query=rust&limit=abc");
    assert!(engine.calls().is_empty());
    assert_eq!(reply.status, 400);
}

#[test]
fn limit_zero_reaches_engine_unchanged() {
    let engine = StubEngine::new();
    drive_search(&engine, b"query=nothing&limit=0");
    assert_eq!(engine.calls(), vec![("nothing".to_string(), 0)]);
}

#[test]
fn engine_failure_is_not_an_empty_success() {
    let r = engine_error_reply();
    assert_eq!(r.status, 500);
}
