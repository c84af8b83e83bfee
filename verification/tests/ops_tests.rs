use custom_dmq::ops::{metrics_response, path_of_request, OpsServer};

#[test]
fn request_path_is_the_second_word() {
    assert_eq!(path_of_request(b"GET /health HTTP/1.1\r\n"), b"/health".to_vec());
    assert_eq!(path_of_request(b"  GET\t/ready"), b"/ready".to_vec());
    assert_eq!(path_of_request(b"GET"), Vec::<u8>::new());
}

#[test]
fn ops_endpoint_routes_by_path() {
    let server = OpsServer::new("data".to_string());
    let metrics = "m 1\n".to_string();
    assert_eq!(
        server.respond(b"GET /metrics HTTP/1.1", &metrics, true),
        "HTTP/1.1 200 OK\r\nContent-Type: text/plain; version=0.0.4\r\nContent-Length: 4\r\nConnection: close\r\n\r\nm 1\n"
    );
    assert_eq!(
        server.respond(b"GET /health HTTP/1.1", &metrics, false),
        "HTTP/1.1 200 OK\r\nContent-Type: text/plain\r\nContent-Length: 2\r\nConnection: close\r\n\r\nok"
    );
    assert_eq!(
        server.respond(b"GET /ready HTTP/1.1", &metrics, false),
        "HTTP/1.1 503 Service Unavailable\r\nContent-Type: text/plain\r\nContent-Length: 9\r\nConnection: close\r\n\r\nnot ready"
    );
    assert_eq!(
        server.respond(b"GET /ready HTTP/1.1", &metrics, true),
        "HTTP/1.1 200 OK\r\nContent-Type: text/plain\r\nContent-Length: 5\r\nConnection: close\r\n\r\nready"
    );
    assert_eq!(
        server.respond(b"GET /other HTTP/1.1", &metrics, true),
        "HTTP/1.1 404 Not Found\r\nContent-Type: text/plain\r\nContent-Length: 9\r\nConnection: close\r\n\r\nnot found"
    );
}

#[test]
fn plain_metrics_endpoint_needs_get_metrics() {
    let metrics = "x".to_string();
    assert_eq!(
        metrics_response(b"GET /metrics HTTP/1.1", &metrics),
        "HTTP/1.1 200 OK\r\nContent-Type: text/plain; version=0.0.4\r\nContent-Length: 1\r\nConnection: close\r\n\r\nx"
    );
    assert_eq!(
        metrics_response(b"POST /metrics", &metrics),
        "HTTP/1.1 404 Not Found\r\nContent-Type: text/plain; version=0.0.4\r\nContent-Length: 9\r\nConnection: close\r\n\r\nnot found"
    );
}
