//! Answers, sessions, uploads and paths.

use localhost::config::parse;
use localhost::handlers::{raw_host, Effect, Handler, PathKind, Reply, Step};
use localhost::http::{try_parse, ParseStatus, Request, Response};
use localhost::pages::{sort_names, DirEntry};
use localhost::paths::{extension, join, mime_type, parent, resolve_path};
use localhost::sessions::{
    ensure_session, new_session_id, SessionStore, MAX_SESSIONS, SESSION_TTL,
};
use localhost::strmap::StrMap;
use localhost::uploads::{filename_in, multipart_boundary, parse_multipart, sanitize_filename};

#[test]
fn path_traversal_is_rejected() {
    assert!(resolve_path("www", "/", "/../secret").is_none());
    assert!(resolve_path("www", "/files", "/files/../../etc/passwd").is_none());
    assert_eq!(
        resolve_path("www", "/files", "/files/a/b.txt"),
        Some(String::from("www/a/b.txt"))
    );
}

#[test]
fn multipart_files_are_extracted() {
    let boundary = "XBOUND";
    let body = b"--XBOUND\r\n\
        Content-Disposition: form-data; name=\"file\"; filename=\"hello.txt\"\r\n\
        Content-Type: text/plain\r\n\r\n\
        hello world\r\n\
        --XBOUND--\r\n";
    let saved = parse_multipart(body, boundary);
    let names: Vec<&str> = saved.iter().map(|file| file.name.as_str()).collect();
    assert_eq!(names, vec!["hello.txt"]);
    assert_eq!(saved[0].content, b"hello world");
}

#[test]
fn a_valid_cookie_is_reused_and_a_junk_one_replaced() {
    let with_cookie = |cookie: &str| {
        let mut headers = StrMap::new();
        headers.insert("cookie".to_string(), cookie.to_string());
        Request {
            method: "GET".into(),
            path: "/".into(),
            query: String::new(),
            version: "HTTP/1.1".into(),
            headers,
            body: Vec::new(),
        }
    };
    let fresh = [7; 16];
    let good = "0123456789abcdef0123456789abcdef";
    let (id, is_new) = ensure_session(&with_cookie(&format!("SID={good}")), &fresh);
    assert_eq!(id, good);
    assert!(!is_new, "a well-formed session cookie must be kept");
    let (id, is_new) = ensure_session(&with_cookie("SID=not-a-session"), &fresh);
    assert!(is_new && id.len() == 32, "junk cookies are replaced");
}

#[test]
fn the_session_store_stays_bounded() {
    let mut handler = Handler::new(Vec::new(), Vec::new());
    for index in 0..MAX_SESSIONS + 100 {
        handler.touch_session(&format!("{index:032x}"), index as u64);
    }
    assert!(
        handler.session_count() <= MAX_SESSIONS,
        "store grew to {}",
        handler.session_count()
    );
}

#[test]
fn filenames_are_sanitized() {
    assert_eq!(sanitize_filename("../../etc/passwd"), "passwd");
    assert_eq!(sanitize_filename("C:\\evil\\name.txt"), "name.txt");
    assert_eq!(sanitize_filename("<>::"), "upload");
}

// ------------------------------------------------------------------------- paths

#[test]
fn paths_are_mapped_into_the_root() {
    assert_eq!(resolve_path("www", "/", "/").as_deref(), Some("www/"));
    assert_eq!(resolve_path("www/", "/", "//a//b").as_deref(), Some("www/a//b"));
    assert_eq!(resolve_path(".", "/x", "/x").as_deref(), Some("./"));
    assert_eq!(resolve_path("/", "/x", "/x/./y").as_deref(), Some("/./y"));
    assert_eq!(resolve_path("w", "/\u{e9}", "/\u{e9}/z").as_deref(), Some("w/z"));
    assert_eq!(resolve_path("w", "/", "/a..b/...").as_deref(), Some("w/a..b/..."));
    assert_eq!(resolve_path("w", "/", "/a/.."), None);
    assert_eq!(resolve_path("w", "/", "/../"), None);
}

#[test]
fn paths_are_taken_apart_as_the_system_does() {
    let paths = [
        "", "/", ".", "..", "./", "/.", "a", "a/", "a/.", "a/..", "a/b", "a//b", "a/./b", "/a",
        "//a", "./a", "././a", "a/b/", "a/b/.", "a/b/./", "/./a", "a.b", ".a", "..a", "a.", "a.b.c",
        "x/.a", "x/a.b/", "x/..", "x/...", "a.b/c", "x/a.B/.", "\u{e9}/\u{e9}.\u{e9}", "../x.y",
    ];
    for path in paths {
        let std_path = std::path::Path::new(path);
        let expected = std_path
            .extension()
            .and_then(|e| e.to_str())
            .unwrap_or("")
            .to_string();
        assert_eq!(extension(path), expected, "extension of {path:?}");
        let expected = std_path
            .parent()
            .map(std::path::Path::to_path_buf)
            .unwrap_or_default();
        assert_eq!(parent(path), expected.to_str().unwrap(), "parent of {path:?}");
        for other in paths {
            let expected = std_path.join(other);
            assert_eq!(join(path, other), expected.to_str().unwrap(), "{path:?} + {other:?}");
        }
    }
}

#[test]
fn media_types_go_by_the_extension() {
    let types = [
        ("a.html", "text/html; charset=utf-8"),
        ("a.HTM", "text/html; charset=utf-8"),
        ("a.css", "text/css"),
        ("a.js", "application/javascript"),
        ("a.json", "application/json"),
        ("a.txt", "text/plain; charset=utf-8"),
        ("a.png", "image/png"),
        ("a.jpg", "image/jpeg"),
        ("a.jpeg", "image/jpeg"),
        ("a.gif", "image/gif"),
        ("a.svg", "image/svg+xml"),
        ("a.ico", "image/x-icon"),
        ("a.pdf", "application/pdf"),
        ("a.mp4", "video/mp4"),
        ("a.ppm", "image/x-portable-pixmap"),
        ("a.tar.gz", "application/octet-stream"),
        ("html", "application/octet-stream"),
        (".html", "application/octet-stream"),
    ];
    for (path, media) in types {
        assert_eq!(mime_type(path), media, "{path}");
    }
}

// ---------------------------------------------------------------------- sessions

#[test]
fn ids_are_made_of_the_fresh_bytes() {
    let fresh = [
        0x00, 0x01, 0x0f, 0x10, 0x9a, 0xab, 0xff, 0x7f, 0x80, 0xc3, 0x28, 0x5e, 0x11, 0x22, 0x33, 0x44,
    ];
    let id = new_session_id(&fresh);
    assert_eq!(id, "00010f109aabff7f80c3285e11223344");
    let raw = format!("GET / HTTP/1.1\r\nCookie: SID={id}\r\n\r\n");
    assert_eq!(ensure_session(&request(raw.as_bytes()), &[0; 16]), (id, false));
}

#[test]
fn visits_are_counted_until_they_are_stale() {
    let mut store = SessionStore::new();
    assert_eq!(store.touch("a", 10), 1);
    assert_eq!(store.touch("a", 20), 2);
    assert_eq!(store.touch("b", 20), 1);
    assert_eq!(store.touch("a", 19 + SESSION_TTL), 3);
    assert_eq!(store.len(), 2);
    assert_eq!(store.touch("c", 20 + SESSION_TTL), 1);
    assert_eq!(store.len(), 2, "b is forgotten");
    assert_eq!(store.touch("b", 20 + SESSION_TTL), 1);
    assert_eq!(store.touch("a", 5), 4, "an earlier time forgets nothing");
    assert_eq!(SESSION_TTL, 1_800_000_000_000);
}

#[test]
fn the_least_recently_seen_session_makes_room() {
    let mut store = SessionStore::new();
    for index in 0..MAX_SESSIONS {
        store.touch(&format!("{index}"), 1000 + index as u64);
    }
    store.touch("0", 9000);
    assert_eq!(store.len(), MAX_SESSIONS);
    store.touch("new", 9001);
    assert_eq!(store.len(), MAX_SESSIONS);
    assert_eq!(store.touch("0", 9002), 3, "seen lately");
    assert_eq!(store.touch("2", 9003), 2, "still there");
    assert_eq!(store.touch("1", 9004), 1, "evicted");
    assert_eq!(MAX_SESSIONS, 4096);
}

// ----------------------------------------------------------------------- uploads

#[test]
fn boundaries_are_found() {
    assert_eq!(
        multipart_boundary("multipart/form-data; boundary=abc").as_deref(),
        Some("abc")
    );
    assert_eq!(
        multipart_boundary("multipart/form-data;x=y;  boundary=\"a b\" ; boundary=z").as_deref(),
        Some("a b")
    );
    assert_eq!(multipart_boundary("multipart/form-data"), None);
    assert_eq!(multipart_boundary("text/plain; boundary=abc"), None);
    assert_eq!(multipart_boundary("Multipart/form-data; boundary=abc"), None);
}

#[test]
fn names_are_found_in_the_headers() {
    let name = |headers: &str| filename_in(headers);
    assert_eq!(
        name("X: y\r\ncontent-DISPOSITION: form-data; filename=\"a/b c.txt\"").as_deref(),
        Some("bc.txt")
    );
    assert_eq!(
        name("Content-Disposition: x; filename=a; filename=\"\"; filename=b").as_deref(),
        Some("b")
    );
    assert_eq!(name("Content-Disposition: form-data; name=\"x\""), None);
    assert_eq!(name("Content-Type: x; filename=a"), None);
}

#[test]
fn an_upload_arrives_byte_for_byte() {
    let mut content: Vec<u8> = Vec::new();
    for n in 0..2000u32 {
        content.push((n * 7 % 256) as u8);
    }
    content.extend_from_slice(b"\r\n\r\n--BOUN\r\n--\r\n");
    let mut body = b"--BOUND\r\nContent-Disposition: form-data; name=\"file\"; filename=\"x.bin\"\r\n\r\n".to_vec();
    body.extend_from_slice(&content);
    body.extend_from_slice(b"\r\n--BOUND--\r\n");
    let files = parse_multipart(&body, "BOUND");
    assert_eq!(files.len(), 1);
    assert_eq!(files[0].name, "x.bin");
    assert_eq!(files[0].content, content);
}

#[test]
fn forms_may_have_many_parts() {
    let body = b"preamble\r\n--B\r\nContent-Disposition: form-data; name=\"t\"\r\n\r\ntext\r\n\
        --B\r\nContent-Disposition: form-data; filename=\"1\"\r\n\r\none\r\n\
        --B\r\nno blank line\r\n\
        --B\r\nContent-Disposition: form-data; filename=\"2\"\r\n\r\n\r\n\
        --B--\r\n\
        --B\r\nContent-Disposition: form-data; filename=\"3\"\r\n\r\nthree\r\n";
    let files = parse_multipart(body, "B");
    let found: Vec<(&str, &[u8])> = files
        .iter()
        .map(|file| (file.name.as_str(), file.content.as_slice()))
        .collect();
    assert_eq!(found, vec![("1", b"one" as &[u8]), ("2", b"" as &[u8])]);
}

#[test]
fn a_part_without_its_last_line_break_stays_as_it_is() {
    let body = b"--B\r\nContent-Disposition: x; filename=n\r\n\r\nabc--B--";
    let files = parse_multipart(body, "B");
    assert_eq!(files[0].name, "n");
    assert_eq!(files[0].content, b"abc");
}

#[test]
fn names_that_are_no_text_are_read_with_replacements() {
    let body = b"--B\r\nContent-Disposition: x; filename=\"a\xffb\"\r\n\r\nz\r\n--B--";
    assert_eq!(parse_multipart(body, "B")[0].name, "ab");
    let text = "--B\r\nContent-Disposition: x; filename=\"\u{e9}/o\u{e9}k\"\r\n\r\nz\r\n--B--";
    assert_eq!(parse_multipart(text.as_bytes(), "B")[0].name, "ok");
}

#[test]
fn sanitized_names_are_clean_and_stay_so() {
    let names = ["a b", "..", "a/", "\\", "x\u{e9}y", "A-Z_0.9", "../..", "a\\b/c", ""];
    for name in names {
        let clean = sanitize_filename(name);
        assert!(!clean.is_empty());
        assert!(clean
            .chars()
            .all(|c| c.is_ascii_alphanumeric() || c == '.' || c == '-' || c == '_'));
        assert_eq!(sanitize_filename(&clean), clean);
    }
    assert_eq!(sanitize_filename("A-Z_0.9"), "A-Z_0.9");
    assert_eq!(sanitize_filename("a/"), "upload");
    for name in ["..", ".", "a/..", "a\\.", ". .", "<.>"] {
        assert_eq!(sanitize_filename(name), "upload", "{name}");
    }
    assert_eq!(sanitize_filename("..."), "...");
}

// ----------------------------------------------------------------------- answers

fn request(raw: &[u8]) -> Request {
    match try_parse(raw) {
        ParseStatus::Complete { request, .. } => request,
        other => panic!("{other:?}"),
    }
}

const SITE: &str = "
    server {
        port 80
        server_name one
        client_max_body_size 60
        error_page 404 errors/404.html
        route / { root www index index.html methods GET DELETE }
        route /files { root files directory_listing on methods GET PUT }
        route /up { root store upload on methods POST }
        route /echo { root e methods POST }
        route /cgi { root cgi cgi .py python3 methods GET }
        route /old { redirect /new }
    }
    server { port 80 server_name Two route / { root two } }";

fn handler() -> Handler {
    let (servers, errors) = parse(SITE);
    assert!(errors.is_empty(), "{errors:?}");
    Handler::new(servers, vec![vec![0, 1]])
}

/// The effect that the answer waits for, as text.
fn effect_text(effect: &Effect) -> String {
    match effect {
        Effect::Probe(path) => format!("probe {path}"),
        Effect::ReadFile(path) => format!("read {path}"),
        Effect::ListDirectory(path) => format!("list {path}"),
        Effect::RunProgram { interpreter, script } => format!("run {interpreter} {script}"),
        Effect::WriteFile { path, content } => format!("write {path} {}", content.len()),
        Effect::SaveFiles { dir, files } => {
            let names: Vec<&str> = files.iter().map(|file| file.name.as_str()).collect();
            format!("save {dir} {}", names.join(","))
        }
        Effect::RemoveFile(path) => format!("remove {path}"),
    }
}

/// Plays a request through with the given replies, and says what was asked for.
fn play(raw: &[u8], replies: Vec<Reply>) -> (Vec<String>, Response) {
    let mut handler = handler();
    let request = request(raw);
    let mut step = handler.handle(&request, 0, &[1; 16], 0);
    let mut asked = Vec::new();
    let mut replies = replies.into_iter();
    loop {
        match step {
            Step::Done(response) => {
                assert!(replies.next().is_none(), "replies are left over");
                return (asked, response);
            }
            Step::Await { task, effect } => {
                asked.push(effect_text(&effect));
                let reply = replies.next().expect("a reply is missing");
                step = handler.resume(&request, task, reply);
            }
        }
    }
}

fn header<'a>(response: &'a Response, name: &str) -> Option<&'a str> {
    response
        .headers
        .iter()
        .find(|(n, _)| n == name)
        .map(|(_, value)| value.as_str())
}

#[test]
fn a_file_is_served_with_its_type() {
    let (asked, response) = play(
        b"GET /a.css HTTP/1.1\r\nHost: one\r\n\r\n",
        vec![Reply::Kind(PathKind::File), Reply::Content(Some(b"x{}".to_vec()))],
    );
    assert_eq!(asked, vec!["probe www/a.css", "read www/a.css"]);
    assert_eq!(response.status, 200);
    assert_eq!(header(&response, "Content-Type"), Some("text/css"));
    assert_eq!(
        header(&response, "Set-Cookie"),
        Some("SID=01010101010101010101010101010101; Path=/; HttpOnly")
    );
    assert_eq!(response.body, b"x{}");
    assert!(!response.suppress_body);
}

#[test]
fn a_client_with_a_session_gets_no_new_one() {
    let raw = b"HEAD /a HTTP/1.1\r\nCookie: SID=0123456789abcdef0123456789ABCDEF\r\n\r\n";
    let (_, response) = play(
        raw,
        vec![Reply::Kind(PathKind::File), Reply::Content(Some(b"abc".to_vec()))],
    );
    assert_eq!(header(&response, "Set-Cookie"), None);
    assert!(response.suppress_body);
    assert_eq!(response.body, b"abc");
}

#[test]
fn a_missing_file_gets_the_custom_page() {
    let (asked, response) = play(
        b"GET /nope HTTP/1.1\r\n\r\n",
        vec![Reply::Kind(PathKind::Other), Reply::Content(Some(b"custom".to_vec()))],
    );
    assert_eq!(asked, vec!["probe www/nope", "read errors/404.html"]);
    assert_eq!(response.status, 404);
    assert_eq!(response.body, b"custom");
}

#[test]
fn a_missing_custom_page_gets_the_built_in_one() {
    let (_, response) = play(
        b"GET /nope HTTP/1.1\r\n\r\n",
        vec![Reply::Kind(PathKind::Other), Reply::Content(None)],
    );
    assert_eq!(response.status, 404);
    let page = "<!DOCTYPE html><html><head><title>404 Not Found</title></head>\
        <body style=\"font-family:sans-serif;text-align:center;margin-top:15vh\">\
        <h1>404 Not Found</h1><hr style=\"width:12rem\">\
        <p>localhost-rs</p></body></html>";
    assert_eq!(response.body, page.as_bytes());
}

#[test]
fn an_unreadable_file_is_forbidden() {
    let (_, response) = play(
        b"GET /a HTTP/1.1\r\n\r\n",
        vec![Reply::Kind(PathKind::File), Reply::Content(None)],
    );
    assert_eq!(response.status, 403);
}

#[test]
fn a_directory_gets_its_slash() {
    let (asked, response) = play(
        b"GET /files HTTP/1.1\r\n\r\n",
        vec![Reply::Kind(PathKind::Dir)],
    );
    assert_eq!(asked, vec!["probe files/"]);
    assert_eq!(response.status, 301);
    assert_eq!(header(&response, "Location"), Some("/files/"));
    assert!(response.body.is_empty());
}

#[test]
fn a_directory_shows_its_default_file() {
    let (asked, response) = play(
        b"GET / HTTP/1.1\r\n\r\n",
        vec![
            Reply::Kind(PathKind::Dir),
            Reply::Kind(PathKind::File),
            Reply::Content(Some(b"home".to_vec())),
        ],
    );
    assert_eq!(asked, vec!["probe www/", "probe www/index.html", "read www/index.html"]);
    assert_eq!(header(&response, "Content-Type"), Some("text/html; charset=utf-8"));
    assert_eq!(response.body, b"home");
}

#[test]
fn a_directory_with_nothing_to_show_is_forbidden() {
    let (_, response) = play(
        b"GET / HTTP/1.1\r\n\r\n",
        vec![Reply::Kind(PathKind::Dir), Reply::Kind(PathKind::Other)],
    );
    assert_eq!(response.status, 403);
}

#[test]
fn a_listing_is_in_order() {
    let entry = |name: &str, is_dir: bool| DirEntry {
        name: name.to_string(),
        is_dir,
    };
    let entries = vec![entry("b", false), entry("a", true), entry("B", false), entry("ab", false)];
    let (asked, response) = play(
        b"GET /files/x/ HTTP/1.1\r\n\r\n",
        vec![Reply::Kind(PathKind::Dir), Reply::Entries(Some(entries))],
    );
    assert_eq!(asked, vec!["probe files/x/", "list files/x/"]);
    let page = "<!DOCTYPE html><html><head><title>Index of /files/x/</title></head>\
        <body><h1>Index of /files/x/</h1><ul><li><a href=\"../\">../</a></li>\
        <li><a href=\"B\">B</a></li><li><a href=\"a/\">a/</a></li>\
        <li><a href=\"ab\">ab</a></li><li><a href=\"b\">b</a></li></ul></body></html>";
    assert_eq!(String::from_utf8(response.body).unwrap(), page);
    let (_, response) = play(
        b"GET /files/ HTTP/1.1\r\n\r\n",
        vec![Reply::Kind(PathKind::Dir), Reply::Entries(None)],
    );
    assert_eq!(response.status, 403);
}

#[test]
fn names_are_sorted_as_strings_are() {
    let names: Vec<String> = ["b", "", "a", "ab", "\u{e9}", "\u{ffff}", "\u{10000}", "a", "Z", "a/"]
        .iter()
        .map(|name| name.to_string())
        .collect();
    let mut expected = names.clone();
    expected.sort();
    assert_eq!(sort_names(&names), expected);
}

#[test]
fn a_method_that_is_not_allowed_is_told_which_are() {
    let (asked, response) = play(b"DELETE /files/a HTTP/1.1\r\n\r\n", vec![]);
    assert!(asked.is_empty());
    assert_eq!(response.status, 405);
    assert_eq!(header(&response, "Allow"), Some("GET, PUT"));
}

#[test]
fn an_allowed_method_that_nothing_implements_is_said_so() {
    let (_, response) = play(b"PUT /files/a HTTP/1.1\r\n\r\n", vec![]);
    assert_eq!(response.status, 501);
}

#[test]
fn a_redirection_names_its_target() {
    let (_, response) = play(b"GET /old/x HTTP/1.1\r\n\r\n", vec![]);
    assert_eq!(response.status, 301);
    assert_eq!(header(&response, "Location"), Some("/new"));
    assert_eq!(
        response.body,
        b"<h1>301 Moved Permanently</h1><p><a href=\"/new\">/new</a></p>"
    );
}

#[test]
fn an_encoded_traversal_is_forbidden() {
    let (asked, response) = play(b"GET /%2e%2e/etc/passwd HTTP/1.1\r\n\r\n", vec![]);
    assert!(asked.is_empty());
    assert_eq!(response.status, 403);
}

#[test]
fn a_body_over_the_limit_is_refused() {
    let mut raw = b"POST /up/x HTTP/1.1\r\nContent-Length: 61\r\n\r\n".to_vec();
    raw.extend_from_slice(&[b'x'; 61]);
    let (_, response) = play(&raw, vec![]);
    assert_eq!(response.status, 413);
}

#[test]
fn a_body_is_stored_where_the_path_says() {
    let (asked, response) = play(
        b"POST /up/x.bin HTTP/1.1\r\nContent-Length: 3\r\n\r\nabc",
        vec![Reply::Kind(PathKind::Other), Reply::Done(true)],
    );
    assert_eq!(asked, vec!["probe store/x.bin", "write store/x.bin 3"]);
    assert_eq!(response.status, 201);
    assert_eq!(response.body, b"<h1>201 Created</h1><p>3 bytes stored.</p>");
    let (_, response) = play(
        b"POST /up/x.bin HTTP/1.1\r\nContent-Length: 3\r\n\r\nabc",
        vec![Reply::Kind(PathKind::Other), Reply::Done(false)],
    );
    assert_eq!(response.status, 500);
}

#[test]
fn a_payload_for_a_directory_is_acknowledged() {
    let (_, response) = play(
        b"POST /up/ HTTP/1.1\r\nContent-Length: 3\r\n\r\nabc",
        vec![Reply::Kind(PathKind::Dir)],
    );
    assert_eq!(response.status, 200);
    assert_eq!(response.body, b"<h1>POST received</h1><p>3 bytes.</p>");
    let (asked, response) = play(b"POST /echo HTTP/1.1\r\nContent-Length: 1\r\n\r\na", vec![]);
    assert!(asked.is_empty());
    assert_eq!(response.body, b"<h1>POST received</h1><p>1 bytes.</p>");
}

fn form(path: &str, host: &str, body: &str) -> Vec<u8> {
    format!(
        "POST {path} HTTP/1.1\r\nHost: {host}\r\nContent-Type: multipart/form-data; boundary=B\r\n\
         Content-Length: {}\r\n\r\n{body}",
        body.len()
    )
    .into_bytes()
}

#[test]
fn a_form_is_stored_in_the_directory() {
    let body = "--B\r\nContent-Disposition:;filename=f\r\n\r\nz\r\n--B--";
    let (asked, response) = play(
        &form("/up/d/", "one", body),
        vec![Reply::Kind(PathKind::Dir), Reply::Done(true)],
    );
    assert_eq!(asked, vec!["probe store/d/", "save store/d/ f"]);
    assert_eq!(response.status, 201);
    assert_eq!(
        response.body,
        b"<h1>201 Created</h1><ul><li><a href=\"f\">f</a></li></ul><p><a href=\"./\">back</a></p>"
    );
    let (asked, response) = play(
        &form("/up/d/g", "one", body),
        vec![Reply::Kind(PathKind::Other), Reply::Done(false)],
    );
    assert_eq!(asked, vec!["probe store/d/g", "save store/d f"]);
    assert_eq!(response.status, 500);
    let (asked, response) = play(&form("/up/", "one", "--B--"), vec![Reply::Kind(PathKind::Dir)]);
    assert_eq!(asked, vec!["probe store/"]);
    assert_eq!(response.status, 200);
    assert_eq!(response.body, b"<h1>No file in the upload</h1>");
}

#[test]
fn files_are_deleted() {
    let raw = b"DELETE /x HTTP/1.1\r\n\r\n";
    let (asked, response) = play(raw, vec![Reply::Kind(PathKind::File), Reply::Done(true)]);
    assert_eq!(asked, vec!["probe www/x", "remove www/x"]);
    assert_eq!(response.status, 200);
    assert_eq!(response.body, b"<h1>Deleted</h1>");
    let (_, response) = play(raw, vec![Reply::Kind(PathKind::File), Reply::Done(false)]);
    assert_eq!(response.status, 403);
    let (_, response) = play(raw, vec![Reply::Kind(PathKind::Dir)]);
    assert_eq!(response.status, 403);
    let (_, response) = play(raw, vec![Reply::Kind(PathKind::Other), Reply::Content(None)]);
    assert_eq!(response.status, 404);
}

#[test]
fn scripts_are_run() {
    let raw = b"GET /cgi/x.py HTTP/1.1\r\n\r\n";
    let (asked, response) = play(
        raw,
        vec![
            Reply::Kind(PathKind::File),
            Reply::Program(Some(Response::html(202, "out".into()))),
        ],
    );
    assert_eq!(asked, vec!["probe cgi/x.py", "run python3 cgi/x.py"]);
    assert_eq!(response.status, 202);
    let (_, response) = play(
        raw,
        vec![Reply::Kind(PathKind::File), Reply::Program(None)],
    );
    assert_eq!(response.status, 500);
    let (_, response) = play(raw, vec![Reply::Kind(PathKind::Dir), Reply::Content(None)]);
    assert_eq!(response.status, 404);
}

#[test]
fn the_session_page_counts() {
    let mut handler = handler();
    let fresh = [0xab; 16];
    let first = request(b"GET /session HTTP/1.1\r\n\r\n");
    let id = "abababababababababababababababab";
    for (visit, raw) in [
        (1, String::from("GET /session HTTP/1.1\r\n\r\n")),
        (2, format!("GET /session HTTP/1.1\r\nCookie: SID={id}\r\n\r\n")),
    ] {
        let response = match handler.handle(&request(raw.as_bytes()), 0, &fresh, visit) {
            Step::Done(response) => response,
            Step::Await { .. } => panic!("nothing to wait for"),
        };
        let page = format!(
            "<!DOCTYPE html><html><body><h1>Session</h1>\
             <p>Your session id: <code>{id}</code></p>\
             <p>You visited this page <b>{visit}</b> time(s).</p>\
             <p><a href=\"/\">home</a></p></body></html>"
        );
        assert_eq!(String::from_utf8(response.body).unwrap(), page);
    }
    assert_eq!(handler.session_count(), 1);
    let other = request(b"GET / HTTP/1.1\r\n\r\n");
    handler.handle(&other, 0, &fresh, 9);
    assert_eq!(handler.session_count(), 1, "only the session page costs memory");
    assert_eq!(first.path, "/session");
}

#[test]
fn hosts_choose_the_server() {
    let handler = handler();
    let limit = |raw: &[u8]| handler.body_limit(raw, 0);
    assert_eq!(limit(b"POST / HTTP/1.1\r\nHost: TWO:80\r\n"), 1_048_576);
    assert_eq!(limit(b"POST / HTTP/1.1\r\nHost: one\r\n"), 60);
    assert_eq!(limit(b"POST / HTTP/1.1\r\nHost: three\r\n"), 60);
    assert_eq!(limit(b"POST / HTTP/1.1\r\n\r\nHost: two\r\n"), 60);
    assert_eq!(limit(b"\xff"), 60);
    assert_eq!(limit(b"POST / HTTP/1.1\r\nHost: two\r\n\r\n\xff\xfe"), 1_048_576);
    assert_eq!(raw_host(b"x\r\nHOST : A.b:1\r\n").as_deref(), Some("a.b"));
    assert_eq!(raw_host(b"Host: a\r\n"), None);
}

#[test]
fn errors_use_the_pages_of_the_server() {
    let handler = handler();
    match handler.error_response(404, 0, b"x\r\nHost: one\r\n") {
        Step::Await { effect, .. } => assert_eq!(effect_text(&effect), "read errors/404.html"),
        Step::Done(_) => panic!("a page was configured"),
    }
    match handler.error_response(404, 0, b"x\r\nHost: two\r\n") {
        Step::Await { .. } => panic!("no page was configured"),
        Step::Done(response) => assert_eq!(response.status, 404),
    }
    let request = request(b"GET / HTTP/1.1\r\nHost: two\r\n\r\n");
    match handler.error_response_for(500, &request, 0) {
        Step::Await { .. } => panic!("no page was configured"),
        Step::Done(response) => {
            assert_eq!(response.status, 500);
            assert!(header(&response, "Set-Cookie").is_none());
        }
    }
}

/// Plays a request through on files that are kept in memory.
fn play_on(files: &mut Vec<(String, Vec<u8>)>, raw: &[u8]) -> Response {
    let (servers, errors) = parse(
        "server { port 80 route /up { root store upload on methods GET POST DELETE } }",
    );
    assert!(errors.is_empty(), "{errors:?}");
    let mut handler = Handler::new(servers, vec![vec![0]]);
    let request = request(raw);
    let mut step = handler.handle(&request, 0, &[1; 16], 0);
    loop {
        let (task, effect) = match step {
            Step::Done(response) => return response,
            Step::Await { task, effect } => (task, effect),
        };
        let reply = match effect {
            Effect::Probe(path) if path.ends_with('/') => Reply::Kind(PathKind::Dir),
            Effect::Probe(path) if files.iter().any(|(p, _)| *p == path) => {
                Reply::Kind(PathKind::File)
            }
            Effect::Probe(_) => Reply::Kind(PathKind::Other),
            Effect::ReadFile(path) => Reply::Content(
                files.iter().rev().find(|(p, _)| *p == path).map(|(_, content)| content.clone()),
            ),
            Effect::WriteFile { path, content } => {
                files.push((path, content));
                Reply::Done(true)
            }
            Effect::SaveFiles { dir, files: saved } => {
                for file in saved {
                    files.push((join(&dir, &file.name), file.content));
                }
                Reply::Done(true)
            }
            Effect::RemoveFile(path) => {
                files.retain(|(p, _)| *p != path);
                Reply::Done(true)
            }
            _ => panic!("{}", effect_text(&effect)),
        };
        step = handler.resume(&request, task, reply);
    }
}

#[test]
fn what_is_uploaded_is_fetched_back_and_deleted() {
    let mut files = Vec::new();
    let body: Vec<u8> = (0..=255).collect();
    let mut raw = b"POST /up/blob.bin HTTP/1.1\r\nContent-Length: 256\r\n\r\n".to_vec();
    raw.extend_from_slice(&body);
    assert_eq!(play_on(&mut files, &raw).status, 201);
    let answer = play_on(&mut files, b"GET /up/blob.bin HTTP/1.1\r\n\r\n");
    assert_eq!((answer.status, answer.body), (200, body));

    let form_body = "--B\r\nContent-Disposition: form-data; filename=\"n.txt\"\r\n\r\nold\r\n\
        --B\r\nContent-Disposition: form-data; filename=\"n.txt\"\r\n\r\nnew\r\n\r\n--B--\r\n";
    assert_eq!(play_on(&mut files, &form("/up/d/", "x", form_body)).status, 201);
    let answer = play_on(&mut files, b"GET /up/d/n.txt HTTP/1.1\r\n\r\n");
    assert_eq!((answer.status, answer.body.as_slice()), (200, b"new\r\n".as_slice()));
    assert_eq!(answer.headers[0].0, "Content-Type");
    assert_eq!(answer.headers[0].1, "text/plain; charset=utf-8");

    for expected in [200, 404] {
        let answer = play_on(&mut files, b"DELETE /up/d/n.txt HTTP/1.1\r\n\r\n");
        assert_eq!(answer.status, expected);
    }
    assert_eq!(play_on(&mut files, b"GET /up/d/n.txt HTTP/1.1\r\n\r\n").status, 404);
    assert_eq!(play_on(&mut files, b"GET /up/blob.bin HTTP/1.1\r\n\r\n").status, 200);
}
