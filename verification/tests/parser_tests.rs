use pixel_agent::parser::{extract_domain, LogParser};

#[test]
fn test_parse_pixel_line() {
    let line = r#"85.137.165.132 - - [10/Jul/2026:00:00:02 +0300] "GET /pixel?page=%2Fsubscription%3Fref%3Dabc&host=hehe.frkn.org&lang=ru&utm_source=telegram HTTP/1.1" 200 43 "https://frkn.org/subscription" "Mozilla/5.0""#;
    let parser = LogParser::new();
    let event = parser.parse_pixel_event(line).expect("Should parse");
    assert_eq!(event.page, "/subscription");
    assert_eq!(event.host, "hehe.frkn.org");
    assert_eq!(event.lang, "ru");
    assert_eq!(event.utm_source, "telegram");
    assert_eq!(event.referer_domain, "frkn.org");
}

#[test]
fn test_strip_query_string_from_page() {
    let line = r#"85.137.165.132 - - [10/Jul/2026:00:00:02 +0300] "GET /pixel?page=%2Fsubscription%3Fid%3Dabc%26env%3Dwl HTTP/1.1" 200 43 "-" "Mozilla/5.0""#;
    let parser = LogParser::new();
    let event = parser.parse_pixel_event(line).expect("Should parse");
    assert_eq!(event.page, "/subscription");
}

#[test]
fn test_ignore_non_pixel() {
    let line = r#"85.137.165.132 - - [10/Jul/2026:00:00:02 +0300] "POST /auth HTTP/2.0" 200 55 "-" "Go-http-client/2.0""#;
    let parser = LogParser::new();
    assert!(parser.parse_pixel_event(line).is_none());
}

#[test]
fn test_extract_domain() {
    assert_eq!(extract_domain("https://frkn.org/subscription"), "frkn.org");
    assert_eq!(extract_domain("http://t.me/share"), "t.me");
    assert_eq!(extract_domain("frkn.org"), "frkn.org");
    assert_eq!(extract_domain(""), "direct");
}

use pixel_agent::parser::{decode_component, domain_host_of, parse_log_fields, parse_nginx_time, parse_url, pixel_event_from, split_url};

const PIXEL: &str = r#"85.137.165.132 - - [10/Jul/2026:00:00:02 +0300] "GET /pixel?page=%2Fsubscription%3Fref%3Dabc&host=hehe.frkn.org&lang=ru&utm_source=telegram HTTP/1.1" 200 43 "https://frkn.org/subscription" "Mozilla/5.0""#;

#[test]
fn parse_line_reads_all_fields() {
    let parser = LogParser::new();
    let p = parser.parse_line(PIXEL).expect("line parses");
    assert_eq!(p.remote_addr, "85.137.165.132");
    assert_eq!(p.timestamp, 1_783_630_802_000);
    assert_eq!(p.method, "GET");
    assert_eq!(p.path, "/pixel");
    assert_eq!(p.status, 200);
    assert_eq!(p.referer, "https://frkn.org/subscription");
    assert_eq!(p.user_agent, "Mozilla/5.0");
    assert_eq!(p.query.get("page"), Some(&"/subscription?ref=abc".to_string()));
    assert_eq!(p.query.get("host"), Some(&"hehe.frkn.org".to_string()));
    assert_eq!(p.query.len(), 4);
}

#[test]
fn parse_log_fields_splits_grammar() {
    let f = parse_log_fields(PIXEL).expect("fields");
    assert_eq!(f.time, "10/Jul/2026:00:00:02 +0300");
    assert_eq!(f.url, "/pixel?page=%2Fsubscription%3Fref%3Dabc&host=hehe.frkn.org&lang=ru&utm_source=telegram");
    assert_eq!(f.status, 200);
    let escaped = r#"1.2.3.4 - - [10/Jul/2026:00:00:02 +0300] "GET /x HTTP/1.1" 404 0 "a\"b\\c" """#;
    let g = parse_log_fields(escaped).expect("escaped fields");
    assert_eq!(g.referer, "a\"b\\c");
    assert_eq!(g.user_agent, "");
    assert_eq!(g.status, 404);
    assert!(parse_log_fields("").is_none());
    assert!(parse_log_fields("1.2.3.4 - - [x] \"GET /x HTTP/1.1\" 99999 0 \"-\" \"-\"").is_none());
    assert!(parse_log_fields("1.2.3.4 - - [x] \"GET /x HTTP/1.1\" 200 0 \"-\"").is_none());
}

#[test]
fn bad_time_rejects_line() {
    let line = r#"1.2.3.4 - - [not a time] "GET /pixel?page=/ HTTP/1.1" 200 43 "-" "UA""#;
    let parser = LogParser::new();
    assert!(parser.parse_line(line).is_none());
    assert!(parser.parse_pixel_event(line).is_none());
}

#[test]
fn nginx_time_parses_with_offset() {
    assert_eq!(parse_nginx_time("10/Jul/2026:00:00:02 +0300").ok(), Some(1_783_630_802_000));
    assert_eq!(parse_nginx_time("01/Jan/1970:00:00:00 +0000").ok(), Some(0));
    assert!(parse_nginx_time("garbage").is_err());
    assert!(parse_nginx_time("32/Jul/2026:00:00:02 +0300").is_err());
}

#[test]
fn decode_component_falls_back_to_raw() {
    assert_eq!(decode_component("%2Fa%3Fb"), "/a?b");
    assert_eq!(decode_component("plain"), "plain");
    assert_eq!(decode_component("%FF"), "%FF");
    assert_eq!(decode_component("a+b"), "a+b");
}

#[test]
fn url_splitting() {
    let (path, q) = parse_url("/pixel?a=1&b=%20x&=skip&c&a=2");
    assert_eq!(path, "/pixel");
    assert_eq!(q.get("a"), Some(&"2".to_string()));
    assert_eq!(q.get("b"), Some(&" x".to_string()));
    assert_eq!(q.get("c"), Some(&"".to_string()));
    assert_eq!(q.get(""), None);
    assert_eq!(q.len(), 3);
    let (p2, raw) = split_url("/only");
    assert_eq!(p2, "/only");
    assert!(raw.is_empty());
    let (p3, raw3) = split_url("/x?k=v=w");
    assert_eq!(p3, "/x");
    assert_eq!(raw3, vec![("k".to_string(), "v=w".to_string())]);
}

#[test]
fn domain_extraction_lowercases_and_strips_port() {
    assert_eq!(extract_domain("HTTPS://FRKN.org:443/x"), "frkn.org");
    assert_eq!(extract_domain("Example.COM:8080/path"), "example.com");
    assert_eq!(domain_host_of("https://Host.Example/x"), "Host.Example");
    assert_eq!(extract_domain("-"), "-");
}

#[test]
fn pixel_filters_method_path_and_status() {
    let parser = LogParser::new();
    let upper = PIXEL.replace("GET /pixel", "GET /PIXEL");
    assert!(parser.parse_pixel_event(&upper).is_some());
    let post = PIXEL.replace("GET /pixel", "POST /pixel");
    assert!(parser.parse_pixel_event(&post).is_none());
    let not_found = PIXEL.replace("\" 200 43", "\" 404 43");
    assert!(parser.parse_pixel_event(&not_found).is_none());
    let other = PIXEL.replace("/pixel?", "/pixels?");
    assert!(parser.parse_pixel_event(&other).is_none());
}

#[test]
fn pixel_defaults_for_missing_params() {
    let line = r#"1.2.3.4 - - [10/Jul/2026:00:00:02 +0300] "GET /pixel HTTP/1.1" 200 43 "-" "UA""#;
    let parser = LogParser::new();
    let e = parser.parse_pixel_event(line).expect("pixel");
    assert_eq!(e.page, "");
    assert_eq!(e.host, "direct");
    assert_eq!(e.referer, "-");
    assert_eq!(e.referer_domain, "-");
    assert_eq!(e.ip, "1.2.3.4");
    assert_eq!(e.user_agent, "UA");
    assert_eq!(e.lang, "");
    let with_ref = r#"1.2.3.4 - - [10/Jul/2026:00:00:02 +0300] "GET /pixel?ref=https%3A%2F%2Ft.me%2Fx HTTP/1.1" 200 43 "https://frkn.org/" "UA""#;
    let e2 = parser.parse_pixel_event(with_ref).expect("pixel");
    assert_eq!(e2.referer, "https://t.me/x");
    assert_eq!(e2.referer_domain, "t.me");
    let parsed = parser.parse_line(with_ref).expect("line");
    let e3 = pixel_event_from(parsed).expect("pixel");
    assert_eq!(e3.referer_domain, "t.me");
}

#[test]
fn parsed_line_from_fields_and_time() {
    let f = parse_log_fields(PIXEL).expect("fields");
    let p = pixel_agent::parser::parsed_line_from(f, 42);
    assert_eq!(p.timestamp, 42);
    assert_eq!(p.path, "/pixel");
    assert_eq!(p.query.get("lang"), Some(&"ru".to_string()));
    assert_eq!(p.method, "GET");
}

#[test]
fn parse_log_fields_gives_the_rest() {
    let f = parse_log_fields(PIXEL).expect("fields");
    assert_eq!(f.rest, "");
    let longer = format!("{}  \"upstream\" 0.003", PIXEL);
    let g = parse_log_fields(&longer).expect("fields");
    assert_eq!(g.rest, "\"upstream\" 0.003");
    assert_eq!(g.user_agent, "Mozilla/5.0");
}
