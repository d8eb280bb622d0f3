use desktop_defender::portal::{
    capture_url_from_redirect_script, create_address_url, credentials_outcome,
    find_endpoints_from_code, find_script_src, find_script_tags, first_protected_url,
    got_redirect_response, is_unauthorized, redirect_target, script_sources, socket_address,
    unique_endpoints, url_for_path, basic_auth_header, CredentialSearch,
};
use regex::Regex;

fn regex_all(pattern: &str, text: &str) -> Vec<String> {
    let rx = Regex::new(pattern).unwrap();
    rx.captures_iter(text)
        .filter_map(|cap| cap.get(1).map(|m| m.as_str().to_string()))
        .collect()
}

fn regex_first(pattern: &str, text: &str) -> Option<String> {
    let rx = Regex::new(pattern).unwrap();
    rx.captures(text)
        .and_then(|caps| caps.get(1).map(|m| m.as_str().to_string()))
}

const SCRIPT_TAGS: &str = r"<script (.*?)></script>";
const SCRIPT_SRC: &str = "src\\s*=\\s*\"([^']+)\"";
const ENDPOINTS: &str = r#""(/[a-zA-Z0-9\/]+)""#;
const REDIRECT: &str = r"url\s*=\s*'([^']+)'";

const PAGES: &[&str] = &[
    "",
    "<html><script defer=\"defer\" src=\"/main.1f13cbe8ee4a4f1a0848.js\"></script></html>",
    "<script a></script><script b></script>",
    "<script \n></script><script ok></script>",
    "<script x></scrip><script y></script>",
    "<script></script>",
    "<script a><script b></script>",
    "<script src = \"/a.js\" x=\"y\"></script>",
    "<script src='/single.js'></script>",
    "<script src=\"/a.js\"></script>\n<script src=\"/b.js\"></script>",
];

#[test]
fn script_tags_agree_with_regex() {
    for page in PAGES {
        assert_eq!(find_script_tags(page), regex_all(SCRIPT_TAGS, page), "{:?}", page);
    }
}

const SCRIPTS: &[&str] = &[
    "defer=\"defer\" src=\"/main.1f13cbe8ee4a4f1a0848.js\"",
    "src=\"/a.js\" data=\"b\"",
    "src='/a.js'",
    "src = \"x\"y\"'z\"",
    "src=\"\"",
    "src=\"a",
    "srcsrc=\"/b.js\"",
    "src\t=\n\"/c.js\"",
    "nothing here",
];

#[test]
fn script_src_agrees_with_regex() {
    for s in SCRIPTS {
        assert_eq!(find_script_src(s), regex_first(SCRIPT_SRC, s), "{:?}", s);
    }
}

const CODES: &[&str] = &[
    "fetch(\"/api/status\"); post(\"/login\")",
    "\"/\" \"/a\"",
    "\"/a b\" \"/ok\"",
    "\"//x\"\"/y\"",
    "x = \"/path/with/slashes/123\"; y = \"/no-dash\"",
    "'/single' \"/double\"",
    "",
];

#[test]
fn endpoints_agree_with_regex() {
    for c in CODES {
        assert_eq!(find_endpoints_from_code(c), regex_all(ENDPOINTS, c), "{:?}", c);
    }
}

const REDIRECTS: &[&str] = &[
    "<script>window.location.url = '/cgi-bin/login.html'</script>",
    "<script>url='/a'</script>",
    "<script>url = ''</script>",
    "<script>url='/x' url='/y'</script>",
    "<script>curl  =  '/z'</script>",
    "<script>url = \"/no\"</script>",
    "<script>url =\n'/multi\nline'</script>",
];

#[test]
fn redirect_capture_agrees_with_regex() {
    for r in REDIRECTS {
        assert_eq!(capture_url_from_redirect_script(r), regex_first(REDIRECT, r), "{:?}", r);
    }
}

#[test]
fn address_url_by_port() {
    assert_eq!(create_address_url("192.168.1.1", 443), "https://192.168.1.1:443");
    assert_eq!(create_address_url("192.168.1.1", 80), "http://192.168.1.1:80");
    assert_eq!(create_address_url("host", -5), "http://host:-5");
    assert_eq!(url_for_path("10.0.0.1", 8080, "/login"), "http://10.0.0.1:8080/login");
    assert_eq!(socket_address("10.0.0.1", 22), "10.0.0.1:22");
    assert_eq!(socket_address("h", i32::MIN), format!("h:{}", i32::MIN));
}

#[test]
fn redirect_detection() {
    assert!(got_redirect_response("<script>window.location='/x'</script>"));
    assert!(!got_redirect_response("<html><script></script></html>"));
    assert!(!got_redirect_response(""));
    assert_eq!(
        redirect_target("<script>url='/login'</script>", "http://h:80"),
        Ok("http://h:80/login".to_string())
    );
    assert_eq!(redirect_target("<script></script>", "http://h:80"), Err("No redirect found".to_string()));
}

#[test]
fn sources_of_a_page() {
    let page = "<script src=\"/a.js\"></script><script inline=1></script><script src=\"/b.js\"></script>";
    assert_eq!(script_sources(page), vec!["/a.js".to_string(), "/b.js".to_string()]);
}

#[test]
fn endpoints_are_deduplicated() {
    let e: Vec<String> = ["/a", "/b", "/a", "/c", "/b"].iter().map(|s| s.to_string()).collect();
    let mut u = unique_endpoints(e);
    u.sort();
    assert_eq!(u, vec!["/a".to_string(), "/b".to_string(), "/c".to_string()]);
    assert!(unique_endpoints(vec![]).is_empty());
}

#[test]
fn unauthorized_and_first_target() {
    assert!(is_unauthorized(Some(401)));
    assert!(!is_unauthorized(Some(200)));
    assert!(!is_unauthorized(None));
    assert_eq!(
        first_protected_url("http://h:80", &vec![]),
        Err("No unauthorized endpoints found".to_string())
    );
    assert_eq!(
        first_protected_url("http://h:80", &vec!["/admin".to_string(), "/x".to_string()]),
        Ok("http://h:80/admin".to_string())
    );
}

#[test]
fn basic_auth_headers() {
    assert_eq!(basic_auth_header("admin:admin"), "Basic YWRtaW46YWRtaW4=");
    assert_eq!(basic_auth_header("admin:password"), "Basic YWRtaW46cGFzc3dvcmQ=");
    assert_eq!(basic_auth_header("admin:Administrator"), "Basic YWRtaW46QWRtaW5pc3RyYXRvcg==");
    assert_eq!(basic_auth_header(""), "Basic ");
}

fn run_search(statuses: &[u16]) -> Option<String> {
    let mut search = CredentialSearch::new();
    let mut tried = 0;
    while let Some((_c, _header)) = search.next_attempt() {
        let status = statuses[tried];
        tried += 1;
        if let Some(c) = search.record_status(status) {
            return Some(c);
        }
    }
    None
}

#[test]
fn credential_search_finds_first_accepted() {
    assert_eq!(run_search(&[200, 200, 200]), Some("admin:admin".to_string()));
    assert_eq!(run_search(&[401, 302, 200]), Some("admin:password".to_string()));
    assert_eq!(run_search(&[401, 401, 403]), Some("admin:Administrator".to_string()));
    assert_eq!(run_search(&[401, 401, 401]), None);
    let first = CredentialSearch::new().next_attempt().unwrap();
    assert_eq!(first.0, "admin:admin");
    assert_eq!(first.1, "Basic YWRtaW46YWRtaW4=");
}

#[test]
fn scan_outcome() {
    assert_eq!(credentials_outcome(Some("admin:admin".to_string())), Ok("admin:admin".to_string()));
    assert_eq!(credentials_outcome(None), Err("No credentials found".to_string()));
}

#[test]
fn endpoints_are_paths() {
    for c in CODES {
        for e in find_endpoints_from_code(c) {
            assert!(e.len() >= 2 && e.starts_with('/'));
            assert!(e.chars().all(|ch| ch.is_ascii_alphanumeric() || ch == '/'));
        }
    }
}
