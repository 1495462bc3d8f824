//! Connections and listeners.

use localhost::config::parse;
use localhost::handlers::{Effect, Handler, PathKind, Reply};
use localhost::server::{
    group_servers, AfterWrite, Connection, Fate, Phase, SocketRead, SocketWrite, Swept, Turn,
    EARLY_CUTOFF, HARD_BODY_CAP, TIMEOUT,
};

const SITE: &str = "
    server { port 80 81 server_name a error_page 400 bad.html route / { root www } }
    server { port 81 server_name b client_max_body_size 100000000 route / { root b } }
    server { host Other port 80 route / { root c } }";

fn handler() -> Handler {
    let (servers, errors) = parse(SITE);
    assert!(errors.is_empty(), "{errors:?}");
    let groups = group_servers(&servers);
    let lists = groups.into_iter().map(|group| group.servers).collect();
    Handler::new(servers, lists)
}

const FRESH: [u8; 16] = [3; 16];

fn text(connection: &Connection) -> String {
    String::from_utf8(connection.pending_output().to_vec()).unwrap()
}

#[test]
fn servers_are_grouped_by_address() {
    let (servers, _) = parse(SITE);
    let groups = group_servers(&servers);
    let found: Vec<(&str, u16, &[usize])> = groups
        .iter()
        .map(|group| (group.host.as_str(), group.port, group.servers.as_slice()))
        .collect();
    assert_eq!(
        found,
        vec![
            ("127.0.0.1", 80, &[0usize] as &[usize]),
            ("127.0.0.1", 81, &[0usize, 1]),
            ("Other", 80, &[2usize]),
        ]
    );
}

#[test]
fn an_answer_is_sent_piece_by_piece() {
    let mut handler = handler();
    let mut connection = Connection::new(0, 0);
    connection.receive(b"GET /x HTTP/1.1\r\n");
    assert!(matches!(
        connection.process_buffer(&mut handler, &FRESH, 0),
        Turn::Wait
    ));
    connection.receive(b"\r\nGET /y HTTP/1.0\r\n\r\n");
    let (job, effect) = match connection.process_buffer(&mut handler, &FRESH, 0) {
        Turn::Perform { job, effect } => (job, effect),
        _ => panic!("expected an effect"),
    };
    assert!(matches!(effect, Effect::Probe(path) if path == "www/x"));
    assert!(matches!(
        connection.resume(&handler, job, Reply::Kind(PathKind::Other)),
        Turn::Send
    ));
    assert_eq!(connection.phase(), Phase::Writing);
    let answer = text(&connection);
    assert!(answer.starts_with("HTTP/1.1 404 Not Found\r\n"));
    assert!(answer.contains("\r\nConnection: keep-alive\r\n"));
    assert_eq!(connection.sent(10), AfterWrite::More);
    assert_eq!(text(&connection), answer[10..]);
    assert_eq!(connection.sent(answer.len() - 10), AfterWrite::Next);
    assert_eq!(connection.phase(), Phase::Reading);
    assert!(connection.has_input(), "the next request is there");

    let job = match connection.process_buffer(&mut handler, &FRESH, 0) {
        Turn::Perform { job, effect } => {
            assert!(matches!(effect, Effect::Probe(path) if path == "www/y"));
            job
        }
        _ => panic!("expected an effect"),
    };
    connection.resume(&handler, job, Reply::Kind(PathKind::Other));
    assert!(text(&connection).contains("\r\nConnection: close\r\n"));
    assert!(!connection.has_input());
    let rest = connection.pending_output().len();
    assert_eq!(connection.sent(rest), AfterWrite::Close);
}

#[test]
fn nothing_is_read_while_an_answer_is_sent() {
    let mut handler = handler();
    let mut connection = Connection::new(1, 0);
    connection.receive(b"nonsense\r\n\r\n");
    let job = match connection.process_buffer(&mut handler, &FRESH, 0) {
        Turn::Perform { job, effect } => {
            assert!(matches!(effect, Effect::ReadFile(path) if path == "bad.html"));
            job
        }
        _ => panic!("expected an effect"),
    };
    connection.resume(&handler, job, Reply::Content(Some(b"bad!".to_vec())));
    let answer = text(&connection);
    assert!(answer.starts_with("HTTP/1.1 400 Bad Request\r\n"));
    assert!(answer.ends_with("\r\n\r\nbad!"));
    assert!(matches!(
        connection.process_buffer(&mut handler, &FRESH, 0),
        Turn::Wait
    ));
    assert_eq!(text(&connection), answer);
}

#[test]
fn an_absurd_body_is_cut_off() {
    let mut handler = handler();
    let announce = |host: &str, length: usize| {
        format!("POST / HTTP/1.1\r\nHost: {host}\r\nContent-Length: {length}\r\n\r\n").into_bytes()
    };
    let mut over = Connection::new(1, 0);
    over.receive(&announce("a", EARLY_CUTOFF + 1));
    assert!(matches!(over.process_buffer(&mut handler, &FRESH, 0), Turn::Send));
    assert!(text(&over).starts_with("HTTP/1.1 413 Payload Too Large\r\n"));
    let mut moderate = Connection::new(1, 0);
    moderate.receive(&announce("a", EARLY_CUTOFF));
    assert!(matches!(moderate.process_buffer(&mut handler, &FRESH, 0), Turn::Wait));
    let mut allowed = Connection::new(1, 0);
    allowed.receive(&announce("b", EARLY_CUTOFF + 1));
    assert!(matches!(allowed.process_buffer(&mut handler, &FRESH, 0), Turn::Wait));
    assert_eq!(EARLY_CUTOFF, 67_108_864);
    assert_eq!(HARD_BODY_CAP, 536_870_912);
}

#[test]
fn a_half_sent_request_is_told_and_dropped() {
    let mut handler = handler();
    let mut connection = Connection::new(0, 100);
    connection.receive(b"GET /");
    connection.process_buffer(&mut handler, &FRESH, 100);
    assert!(matches!(connection.sweep(&handler, 99 + TIMEOUT), Swept::Keep));
    assert!(matches!(
        connection.sweep(&handler, 100 + TIMEOUT),
        Swept::Told(Turn::Send)
    ));
    assert!(text(&connection).starts_with("HTTP/1.1 408 Request Timeout\r\n"));
    assert!(matches!(connection.sweep(&handler, 101 + TIMEOUT), Swept::Close));
    assert_eq!(TIMEOUT, 15_000_000_000);
}

#[test]
fn an_idle_connection_is_dropped() {
    let handler = handler();
    let mut connection = Connection::new(0, 0);
    assert!(matches!(connection.sweep(&handler, TIMEOUT), Swept::Close));
    connection.active(50);
    assert!(matches!(connection.sweep(&handler, TIMEOUT), Swept::Keep));
    assert!(matches!(connection.sweep(&handler, 0), Swept::Keep));
}

#[test]
fn a_half_sent_answer_is_not_overwritten() {
    let mut handler = handler();
    let mut connection = Connection::new(2, 0);
    connection.receive(b"nonsense\r\n\r\nmore");
    assert!(matches!(
        connection.process_buffer(&mut handler, &FRESH, 0),
        Turn::Send
    ));
    let answer = text(&connection);
    assert_eq!(connection.sent(7), AfterWrite::More);
    assert!(matches!(connection.sweep(&handler, TIMEOUT), Swept::Close));
    assert_eq!(text(&connection), answer[7..]);
}

#[test]
fn a_broken_answer_becomes_a_500() {
    let mut handler = handler();
    let mut connection = Connection::new(0, 0);
    connection.receive(b"GET /x HTTP/1.1\r\n\r\n");
    let job = match connection.process_buffer(&mut handler, &FRESH, 0) {
        Turn::Perform { job, .. } => job,
        _ => panic!("expected an effect"),
    };
    assert!(matches!(connection.abandon(&handler, job), Turn::Send));
    let answer = text(&connection);
    assert!(answer.starts_with("HTTP/1.1 500 Internal Server Error\r\n"));
    assert!(answer.contains("\r\nConnection: keep-alive\r\n"));
}

#[test]
fn a_closed_or_failed_socket_is_dropped() {
    let mut handler = handler();
    let mut connection = Connection::new(2, 0);
    assert!(matches!(
        connection.on_readable(SocketRead::NotReady, &mut handler, &FRESH, 0),
        Fate::Keep(Turn::Wait)
    ));
    assert!(matches!(
        connection.on_readable(SocketRead::Closed, &mut handler, &FRESH, 0),
        Fate::Drop
    ));
    assert!(matches!(
        connection.on_readable(SocketRead::Failed, &mut handler, &FRESH, 0),
        Fate::Drop
    ));
    assert!(matches!(
        connection.on_readable(SocketRead::Data(b"nonsense\r\n\r\n"), &mut handler, &FRESH, 0),
        Fate::Keep(Turn::Send)
    ));
    let answer = text(&connection);
    assert!(answer.starts_with("HTTP/1.1 400 Bad Request\r\n"));
    assert!(matches!(
        connection.on_writable(SocketWrite::NotReady, &mut handler, &FRESH, 0),
        Fate::Keep(Turn::Wait)
    ));
    assert_eq!(text(&connection), answer);
    assert!(matches!(
        connection.on_writable(SocketWrite::Closed, &mut handler, &FRESH, 0),
        Fate::Drop
    ));
    assert!(matches!(
        connection.on_writable(SocketWrite::Failed, &mut handler, &FRESH, 0),
        Fate::Drop
    ));
    assert!(matches!(
        connection.on_writable(SocketWrite::Sent(answer.len()), &mut handler, &FRESH, 0),
        Fate::Drop
    ));
}

#[test]
fn a_second_request_is_answered_behind_the_first() {
    let mut handler = handler();
    let mut connection = Connection::new(0, 0);
    let data = b"GET /x HTTP/1.1\r\n\r\nGET /y HTTP/1.1\r\n\r\n";
    let job = match connection.on_readable(SocketRead::Data(data), &mut handler, &FRESH, 0) {
        Fate::Keep(Turn::Perform { job, effect }) => {
            assert!(matches!(effect, Effect::Probe(path) if path == "www/x"));
            job
        }
        _ => panic!("expected an effect"),
    };
    connection.resume(&handler, job, Reply::Kind(PathKind::Other));
    let length = connection.pending_output().len();
    assert!(matches!(
        connection.on_writable(SocketWrite::Sent(1), &mut handler, &FRESH, 0),
        Fate::Keep(Turn::Wait)
    ));
    assert_eq!(connection.phase(), Phase::Writing);
    let job = match connection.on_writable(SocketWrite::Sent(length - 1), &mut handler, &FRESH, 0) {
        Fate::Keep(Turn::Perform { job, effect }) => {
            assert!(matches!(effect, Effect::Probe(path) if path == "www/y"));
            job
        }
        _ => panic!("expected an effect"),
    };
    connection.resume(&handler, job, Reply::Kind(PathKind::Other));
    let length = connection.pending_output().len();
    assert!(matches!(
        connection.on_writable(SocketWrite::Sent(length), &mut handler, &FRESH, 0),
        Fate::Keep(Turn::Wait)
    ));
    assert_eq!(connection.phase(), Phase::Reading);
}
