use ai_server::cors::{allowed_origins, Cors};

fn pair(name: &str, value: &str) -> (String, String) {
    (name.to_string(), value.to_string())
}

#[test]
fn admitted_origins_are_listed() {
    assert_eq!(
        allowed_origins(),
        vec![
            "http://localhost:443",
            "https://localhost",
            "https://localhost:80",
            "http://localhost:8080",
            "http://localhost",
            "http://desdemona.seoulsky.org",
            "http://desdemona.seoulsky.org:443",
            "https://desdemona.seoulsky.org",
        ]
    );
}

#[test]
fn admitted_origin_gets_the_headers() {
    let cors = Cors::new(allowed_origins());
    for origin in allowed_origins() {
        assert!(cors.admits(&origin));
        assert_eq!(
            cors.response_headers(Some(&origin)),
            vec![
                pair("Access-Control-Allow-Origin", &origin),
                pair("Access-Control-Allow-Methods", "GET"),
                pair("Access-Control-Allow-Headers", "*"),
                pair("Access-Control-Allow-Credentials", "true"),
            ]
        );
    }
    assert_eq!(
        cors.response_headers(Some("https://desdemona.seoulsky.org"))[0],
        pair("Access-Control-Allow-Origin", "https://desdemona.seoulsky.org")
    );
}

#[test]
fn other_origin_gets_no_header() {
    let cors = Cors::new(allowed_origins());
    assert!(!cors.admits("https://evil.example"));
    assert!(cors.response_headers(Some("https://evil.example")).is_empty());
    assert!(cors.response_headers(None).is_empty());
    assert!(cors.response_headers(Some("")).is_empty());
    assert!(cors.response_headers(Some("https://desdemona.seoulsky.org/")).is_empty());
    assert!(cors.response_headers(Some("HTTPS://DESDEMONA.SEOULSKY.ORG")).is_empty());
    assert!(cors.response_headers(Some("https://localhost:443")).is_empty());
}

#[test]
fn missing_origin_counts_as_the_empty_origin() {
    let cors = Cors::new(vec![String::new()]);
    assert_eq!(cors.response_headers(None)[0], pair("Access-Control-Allow-Origin", ""));
    assert_eq!(cors.response_headers(None).len(), 4);
    assert!(Cors::new(Vec::new()).response_headers(None).is_empty());
}
