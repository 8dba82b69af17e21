use mockan::routes::{BuildError, DispatchResult, RouteTable, ServiceEntry};
use mockan::store::{ResponsePayload, ResponseStore};
use std::time::{Duration, Instant};

const RESPONSE_FILE: &str = r#"{"status":"ok","prediction":[0.1,0.9]}"#;

fn entry(path: &str, delay_millis: u64, source: &str) -> ServiceEntry {
    ServiceEntry { path: path.to_string(), delay_millis, source: source.to_string() }
}

fn payload(source: &str, body: &str) -> ResponsePayload {
    ResponsePayload { source: source.to_string(), body: body.to_string() }
}

/// The two services of the example service map, both answering with the same file.
fn example_routes() -> RouteTable {
    let store = ResponseStore::load(vec![payload("response.json", RESPONSE_FILE)]).unwrap();
    let entries = vec![
        entry("/v2/models/example/infer", 0, "response.json"),
        entry("/v2/models/other-example/infer", 800, "response.json"),
    ];
    RouteTable::build(&entries, &store).unwrap()
}

fn runtime() -> tokio::runtime::Runtime {
    tokio::runtime::Builder::new_multi_thread().enable_time().build().unwrap()
}

/// Answers a request as an HTTP front would: status, then body after the delay.
async fn serve(routes: &RouteTable, path: &str) -> (u16, String) {
    match routes.dispatch(path) {
        DispatchResult::Found { payload, delay_millis } => {
            tokio::time::sleep(Duration::from_millis(delay_millis)).await;
            (200, payload)
        }
        DispatchResult::NotFound => (404, String::new()),
    }
}

#[test]
fn test_valid_service_response() {
    let routes = example_routes();
    let (status, body) = runtime().block_on(serve(&routes, "/v2/models/example/infer"));
    assert_eq!(status, 200);
    let body: serde_json::Value = serde_json::from_str(&body).expect("Invalid JSON response");
    assert_eq!(body["status"], "ok");
    assert_eq!(body["prediction"], serde_json::Value::from(vec![0.1, 0.9]));
}

#[test]
fn test_valid_service_response_with_delay() {
    let routes = example_routes();
    let start = Instant::now();
    let (status, body) = runtime().block_on(serve(&routes, "/v2/models/other-example/infer"));
    let elapsed = start.elapsed();
    assert!(elapsed.as_millis() >= 800);
    assert_eq!(status, 200);
    let body: serde_json::Value = serde_json::from_str(&body).expect("Invalid JSON response");
    assert_eq!(body["status"], "ok");
    assert_eq!(body["prediction"], serde_json::Value::from(vec![0.1, 0.9]));
}

#[test]
fn test_404_for_unknown_path() {
    let routes = example_routes();
    let (status, _) = runtime().block_on(serve(&routes, "/v2/models/unknown/infer"));
    assert_eq!(status, 404);
}

#[test]
fn registered_path_is_found_with_its_delay_and_body() {
    let store = ResponseStore::load(vec![payload("a", "[1]"), payload("b", "{\"x\":2}")]).unwrap();
    let entries = vec![entry("/alpha", 5, "a"), entry("beta/gamma", 7, "b")];
    let table = RouteTable::build(&entries, &store).unwrap();
    assert_eq!(
        table.dispatch("/alpha"),
        DispatchResult::Found { payload: "[1]".to_string(), delay_millis: 5 }
    );
    assert_eq!(
        table.dispatch("alpha"),
        DispatchResult::Found { payload: "[1]".to_string(), delay_millis: 5 }
    );
    assert_eq!(
        table.dispatch("//beta/gamma"),
        DispatchResult::Found { payload: "{\"x\":2}".to_string(), delay_millis: 7 }
    );
}

#[test]
fn unknown_path_is_not_found_every_time() {
    let table = example_routes();
    for _ in 0..3 {
        assert_eq!(table.dispatch("/v2/models/missing/infer"), DispatchResult::NotFound);
    }
    assert_eq!(table.dispatch("/v2/models/example"), DispatchResult::NotFound);
    assert_eq!(table.dispatch("/v2/models/example/infer/"), DispatchResult::NotFound);
    assert_eq!(table.dispatch(""), DispatchResult::NotFound);
    assert!(matches!(table.dispatch("/v2/models/example/infer"), DispatchResult::Found { .. }));
}

#[test]
fn duplicate_path_keeps_last_entry() {
    let store = ResponseStore::load(vec![payload("first", "1"), payload("second", "2")]).unwrap();
    let entries = vec![entry("/dup", 10, "first"), entry("dup", 20, "second")];
    let table = RouteTable::build(&entries, &store).unwrap();
    assert_eq!(
        table.dispatch("/dup"),
        DispatchResult::Found { payload: "2".to_string(), delay_millis: 20 }
    );
}

#[test]
fn unresolved_source_fails_the_build() {
    let store = ResponseStore::load(vec![payload("known", "null")]).unwrap();
    let entries = vec![entry("/a", 0, "known"), entry("/b", 0, "missing"), entry("/c", 0, "gone")];
    assert_eq!(
        RouteTable::build(&entries, &store).unwrap_err(),
        BuildError::UnresolvedResponse { index: 1 }
    );
}

#[test]
fn empty_entries_give_an_empty_table() {
    let store = ResponseStore::load(vec![]).unwrap();
    let table = RouteTable::build(&vec![], &store).unwrap();
    assert_eq!(table.dispatch("/anything"), DispatchResult::NotFound);
}

#[test]
fn round_trip_of_a_response_file_with_delay() {
    let store = ResponseStore::load(vec![payload("example.json", RESPONSE_FILE)]).unwrap();
    let entries = vec![entry("v2/models/example/infer", 1200, "example.json")];
    let table = RouteTable::build(&entries, &store).unwrap();
    let start = Instant::now();
    let (status, body) = runtime().block_on(serve(&table, "/v2/models/example/infer"));
    assert!(start.elapsed().as_millis() >= 1200);
    assert_eq!(status, 200);
    let got: serde_json::Value = serde_json::from_str(&body).unwrap();
    let original: serde_json::Value = serde_json::from_str(RESPONSE_FILE).unwrap();
    assert_eq!(got, original);
}

#[test]
fn concurrent_delays_overlap() {
    let store = ResponseStore::load(vec![payload("r", "{}")]).unwrap();
    let delays: Vec<u64> = vec![300, 500, 700, 900];
    let entries: Vec<ServiceEntry> =
        delays.iter().enumerate().map(|(i, d)| entry(&format!("/svc/{}", i), *d, "r")).collect();
    let table = std::sync::Arc::new(RouteTable::build(&entries, &store).unwrap());
    let rt = runtime();
    let start = Instant::now();
    rt.block_on(async {
        let mut handles = Vec::new();
        for i in 0..delays.len() {
            let t = table.clone();
            handles.push(tokio::spawn(async move { serve(&t, &format!("/svc/{}", i)).await }));
        }
        for h in handles {
            assert_eq!(h.await.unwrap().0, 200);
        }
    });
    let elapsed = start.elapsed().as_millis();
    assert!(elapsed >= 900);
    assert!(elapsed < 2400);
}
