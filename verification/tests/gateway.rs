use rusty_time::gateway::{
    asset_name, body_is_acceptable, content_type, header_line, reason, request_line,
    response_head, route, RequestLine, Route, MAX_BODY_BYTES,
};

fn routed(line: &str) -> Route {
    route(&request_line(line))
}

#[test]
fn asset_names_that_escape_the_directory_are_refused() {
    for bad in ["../secret", "..\\secret", "a/b", "a\\b", "C:windows", "", "../../etc/passwd"] {
        assert!(asset_name(bad).is_none(), "{bad} would have been served");
        assert!(asset_name(&format!("/{bad}")).is_none(), "/{bad} would have been served");
    }
    for good in ["rusty_time_wasm.js", "rusty_time_wasm_bg.wasm", "demo.html"] {
        assert_eq!(asset_name(good), Some(good.to_string()), "{good} should be servable");
        assert_eq!(asset_name(&format!("//{good}")), Some(good.to_string()));
    }
}

#[test]
fn requests_find_their_way() {
    assert_eq!(routed("OPTIONS /time HTTP/1.1\r\n"), Route::Preflight);
    assert_eq!(routed("POST /time HTTP/1.1\r\n"), Route::TimeExchange);
    assert_eq!(routed("POST /times HTTP/1.1\r\n"), Route::TimeExchange);
    assert_eq!(routed("POST /tim HTTP/1.1\r\n"), Route::MethodNotAllowed);
    assert_eq!(routed("GET / HTTP/1.1\r\n"), Route::StatusPage);
    assert_eq!(routed("GET /index.html HTTP/1.1\r\n"), Route::StatusPage);
    assert_eq!(routed("GET /demo.js HTTP/1.1\r\n"), Route::Asset);
    assert_eq!(routed("DELETE / HTTP/1.1\r\n"), Route::MethodNotAllowed);
    assert_eq!(routed("GET\r\n"), Route::StatusPage);
    assert_eq!(routed("\r\n"), Route::MethodNotAllowed);
    let odd = RequestLine { method: "get".to_string(), path: "/".to_string() };
    assert_eq!(route(&odd), Route::MethodNotAllowed);
}

#[test]
fn the_length_header_is_found_whatever_its_case() {
    assert_eq!(header_line("Content-Length: 48\r\n", 0), Some(48));
    assert_eq!(header_line("CONTENT-LENGTH:48\r\n", 0), Some(48));
    assert_eq!(header_line("content-length: x\r\n", 7), Some(0));
    assert_eq!(header_line("Content-Length : 48\r\n", 7), Some(7));
    assert_eq!(header_line("Host: example\r\n", 7), Some(7));
    assert_eq!(header_line("nonsense\r\n", 7), Some(7));
    assert_eq!(header_line("\r\n", 7), None);
    assert_eq!(header_line("   ", 7), None);
    assert_eq!(header_line("content-length: 99999999999999999999999\r\n", 7), Some(0));
}

#[test]
fn bodies_are_bounded() {
    assert!(!body_is_acceptable(0));
    assert!(body_is_acceptable(1));
    assert!(body_is_acceptable(MAX_BODY_BYTES));
    assert!(!body_is_acceptable(MAX_BODY_BYTES + 1));
}

#[test]
fn content_types_go_by_the_ending() {
    assert_eq!(content_type("a.wasm"), "application/wasm");
    assert_eq!(content_type("a.js"), "text/javascript; charset=utf-8");
    assert_eq!(content_type("a.html"), "text/html; charset=utf-8");
    assert_eq!(content_type("wasm"), "application/octet-stream");
    assert_eq!(content_type(""), "application/octet-stream");
}

#[test]
fn an_answer_starts_with_its_head() {
    assert_eq!(
        response_head(404, "text/plain", 10),
        "HTTP/1.1 404 Not Found\r\nContent-Type: text/plain\r\nContent-Length: 10\r\n\
         Access-Control-Allow-Origin: *\r\nAccess-Control-Allow-Methods: POST, GET, OPTIONS\r\n\
         Access-Control-Allow-Headers: content-type\r\nCache-Control: no-store\r\n\
         Connection: close\r\n\r\n"
    );
    for (status, phrase) in [
        (200, "OK"),
        (204, "No Content"),
        (400, "Bad Request"),
        (405, "Method Not Allowed"),
        (429, "Too Many Requests"),
        (500, "Internal Server Error"),
    ] {
        assert_eq!(reason(status), phrase);
    }
}
