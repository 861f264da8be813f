use latte_lens::ipc::{
    admits_connection, check_reply, check_request, default_runtime_root, error_response,
    finish_open, forward_open, is_exposed, keep_draining, new_request_inbox, order_instances,
    respond, runtime_dir, send, socket_file_name, socket_names, startup_salt, unix_millis,
    wants_narrowing, Focus, Instance, InstanceInfo, IpcError, Request, RequestAction,
    RequestBody, RequestBuffer, RequestRead, Response, ResponseBody, MAX_REQUEST_BYTES,
    PROTOCOL_VERSION,
};
use latte_lens::paths::PathStyle;

fn info(pid: u32, started_at_ms: u64) -> InstanceInfo {
    InstanceInfo {
        proto: PROTOCOL_VERSION,
        pid,
        root: "/work".to_string(),
        version: "0.0.0".to_string(),
        started_at_ms,
    }
}

fn open(paths: &[&str], focus: Focus) -> RequestBody {
    RequestBody::Open {
        paths: paths.iter().map(|path| path.to_string()).collect(),
        focus,
    }
}

fn reply(action: RequestAction) -> Response {
    match action {
        RequestAction::Reply(response) => response,
        other => panic!("expected a reply, got {other:?}"),
    }
}

fn message(response: &Response) -> &str {
    match &response.body {
        ResponseBody::Error { message } => message,
        other => panic!("expected error reply, got {other:?}"),
    }
}

#[test]
fn socket_names_pin_pid_and_deterministic_salt() {
    let salt = startup_salt(Some((1_700_000_000, 0)));
    assert_eq!(socket_file_name(4242, salt), socket_file_name(4242, salt));
    assert!(socket_file_name(4242, salt).ends_with(".sock"));
    assert!(socket_file_name(4242, salt).starts_with("4242-"));
    assert_ne!(socket_file_name(4242, salt), socket_file_name(4243, salt));
    assert_eq!(socket_file_name(4242, salt), "4242-6553f100.sock");
    assert_eq!(socket_file_name(1, 0xdead_beef), "1-deadbeef.sock");
    assert_eq!(startup_salt(Some((1, 0x0001_8000))), 1 ^ 0x8000_0001);
    assert_eq!(startup_salt(None), 0);
}

#[test]
fn milliseconds_stop_at_the_largest() {
    assert_eq!(unix_millis(None), 0);
    assert_eq!(unix_millis(Some(12)), 12);
    assert_eq!(unix_millis(Some(u128::MAX)), u64::MAX);
}

#[test]
fn open_requests_are_declined_without_a_request_inbox() {
    let request = Request {
        proto: PROTOCOL_VERSION,
        body: open(&["/tmp/a.md"], Focus::NewTab),
    };
    let mut inbox = None;
    let response = reply(respond(Ok(request), &info(7, 1), &mut inbox));
    assert!(message(&response).contains("does not accept 'open' requests"));
    assert!(inbox.is_none());
}

#[test]
fn open_requests_are_forwarded_through_the_inbox_and_answered() {
    let mut inbox = Some(new_request_inbox());
    let request = Request {
        proto: PROTOCOL_VERSION,
        body: open(&["/tmp/a.md"], Focus::NewTab),
    };
    let ticket = match respond(Ok(request), &info(7, 1), &mut inbox) {
        RequestAction::Wait(ticket) => ticket,
        other => panic!("expected to wait, got {other:?}"),
    };
    let waiting = inbox.as_mut().unwrap().take().unwrap();
    assert_eq!(waiting.ticket, ticket);
    assert_eq!(waiting.paths, vec!["/tmp/a.md".to_string()]);
    assert_eq!(waiting.focus, Focus::NewTab);
    assert!(inbox.as_mut().unwrap().take().is_none());
    let response = finish_open(Some(ResponseBody::Opened {
        opened: waiting.paths,
    }));
    assert_eq!(response.proto, PROTOCOL_VERSION);
    match response.body {
        ResponseBody::Opened { opened } => assert_eq!(opened, vec!["/tmp/a.md".to_string()]),
        other => panic!("expected opened reply, got {other:?}"),
    }
}

#[test]
fn open_requests_time_out_when_the_instance_never_answers() {
    assert!(message(&finish_open(None)).contains("did not answer"));
}

#[test]
fn open_requests_need_a_path_and_keep_their_order() {
    let mut inbox = Some(new_request_inbox());
    let response = reply(forward_open(vec![], Focus::Active, &mut inbox));
    assert_eq!(message(&response), "open requires at least one path");
    for path in ["a", "b"] {
        forward_open(vec![path.to_string()], Focus::default(), &mut inbox);
    }
    let inbox = inbox.as_mut().unwrap();
    assert_eq!(inbox.take().unwrap().paths, vec!["a".to_string()]);
    let second = inbox.take().unwrap();
    assert_eq!(second.paths, vec!["b".to_string()]);
    assert_eq!(second.focus, Focus::Active);
    assert_eq!(second.ticket, 1);
}

#[test]
fn protocol_version_mismatches_fail_with_a_message() {
    let request = Request {
        proto: 99,
        body: RequestBody::Info,
    };
    let response = reply(respond(Ok(request), &info(7, 1), &mut None));
    assert!(message(&response).contains("protocol version"));
    assert_eq!(
        message(&response),
        "unsupported protocol version; this instance speaks 1"
    );
}

#[test]
fn instances_say_who_they_are() {
    let request = Request {
        proto: PROTOCOL_VERSION,
        body: RequestBody::Info,
    };
    let response = reply(respond(Ok(request), &info(7, 1), &mut None));
    assert_eq!(
        response,
        Response {
            proto: PROTOCOL_VERSION,
            body: ResponseBody::Info { info: info(7, 1) },
        }
    );
}

#[test]
fn malformed_and_oversized_requests_get_error_replies() {
    let response = reply(respond(Err("expected value".to_string()), &info(7, 1), &mut None));
    assert_eq!(message(&response), "malformed request: expected value");

    let mut buffer = RequestBuffer::new();
    let chunk = vec![b'x'; 1024];
    let mut oversized = false;
    for _ in 0..MAX_REQUEST_BYTES / 1024 + 1 {
        match buffer.push(&chunk) {
            RequestRead::More => {}
            RequestRead::Oversized => oversized = true,
            RequestRead::Complete(_) => panic!("no end was sent"),
        }
    }
    assert!(oversized);
    assert!(message(&error_response("request exceeds the protocol size bound")).contains("bound"));
}

#[test]
fn a_request_ends_with_its_line_however_it_is_cut() {
    let stream = b"{\"proto\":1}\nrest";
    for cut in 0..stream.len() {
        let mut buffer = RequestBuffer::new();
        let found = match buffer.push(&stream[..cut]) {
            RequestRead::Complete(bytes) => bytes,
            RequestRead::More => match buffer.push(&stream[cut..]) {
                RequestRead::Complete(bytes) => bytes,
                other => panic!("expected the end, got {other:?}"),
            },
            other => panic!("unexpected {other:?}"),
        };
        assert_eq!(found, b"{\"proto\":1}");
    }
}

#[test]
fn long_requests_are_drained_to_a_limit() {
    assert_eq!(keep_draining(0, b"abc"), Some(3));
    assert_eq!(keep_draining(0, b"ab\nc"), None);
    assert_eq!(keep_draining(0, b""), None);
    assert_eq!(keep_draining(MAX_REQUEST_BYTES - 3, b"abc"), None);
    assert_eq!(keep_draining(usize::MAX, b"abc"), None);
}

#[test]
fn a_fifth_connection_is_not_served() {
    assert!(admits_connection(3));
    assert!(!admits_connection(4));
}

#[test]
fn discovery_asks_sockets_in_the_order_of_their_names() {
    let names: Vec<String> = ["b.sock", "a.sock", "c.txt", ".sock", "b.sock.bak"]
        .iter()
        .map(|name| name.to_string())
        .collect();
    assert_eq!(socket_names(&names), vec![".sock", "a.sock", "b.sock"]);
    let many: Vec<String> = (0..100).rev().map(|index| format!("{index:03}.sock")).collect();
    let asked = socket_names(&many);
    assert_eq!(asked.len(), 64);
    assert_eq!(asked[0], "000.sock");
    assert_eq!(asked[63], "063.sock");
}

#[test]
fn instances_are_ordered_by_start_and_number() {
    let instance = |pid, started_at_ms| Instance {
        socket_path: b"/s".to_vec(),
        info: info(pid, started_at_ms),
    };
    let ordered = order_instances(vec![instance(3, 2), instance(2, 2), instance(9, 1)]);
    let pids: Vec<u32> = ordered.iter().map(|instance| instance.info.pid).collect();
    assert_eq!(pids, vec![9, 2, 3]);
}

#[test]
fn runtime_directories_are_owner_only() {
    assert!(wants_narrowing(0o40755));
    assert!(!wants_narrowing(0o40700));
    assert!(is_exposed(0o40710));
    assert!(!is_exposed(0o40700));
}

#[test]
fn the_runtime_dir_override_places_sockets_under_instances() {
    assert_eq!(
        runtime_dir(PathStyle::Unix, Some(b"/sandbox"), b"/usual").expect("runtime dir"),
        b"/sandbox/instances"
    );
    assert_eq!(
        runtime_dir(PathStyle::Unix, Some(b""), b"/usual").expect("runtime dir"),
        b"/usual/instances"
    );
    assert_eq!(runtime_dir(PathStyle::Unix, Some(b"sandbox"), b"/usual").unwrap_err(), b"sandbox");
    assert_eq!(runtime_dir(PathStyle::Unix, Some(b"/a/../b"), b"/usual").unwrap_err(), b"/a/../b");
    assert_eq!(runtime_dir(PathStyle::Unix, None, b"/usual").unwrap(), b"/usual/instances");
}

#[test]
fn the_usual_root_belongs_to_the_user() {
    assert_eq!(
        default_runtime_root(PathStyle::Unix, Some(b"/run/user/1"), 1, b"/tmp"),
        b"/run/user/1/latte-lens"
    );
    assert_eq!(default_runtime_root(PathStyle::Unix, Some(b""), 1000, b"/tmp"), b"/tmp/latte-lens-1000");
    assert_eq!(default_runtime_root(PathStyle::Unix, None, 0, b"/tmp/"), b"/tmp/latte-lens-0");
    assert_eq!(
        default_runtime_root(PathStyle::Windows, Some(b"C:/run"), 7, br"C:\Temp"),
        br"C:\Temp\latte-lens"
    );
    assert_eq!(
        runtime_dir(PathStyle::Windows, None, br"C:\Temp\latte-lens").unwrap(),
        br"C:\Temp\latte-lens\instances"
    );
}

#[test]
fn requests_to_open_files_are_waited_for_longest() {
    let outgoing = send(open(&["/a"], Focus::Active));
    assert_eq!(outgoing.timeout, 6_000);
    assert_eq!(outgoing.request.proto, PROTOCOL_VERSION);
    assert_eq!(send(RequestBody::Info).timeout, 2_000);
    assert!(check_request(MAX_REQUEST_BYTES).is_ok());
    assert_eq!(
        check_request(MAX_REQUEST_BYTES + 1).unwrap_err().message(),
        "instance protocol error: request exceeds the protocol size bound"
    );
}

#[test]
fn replies_are_checked() {
    let response = |proto| Response {
        proto,
        body: ResponseBody::Info { info: info(7, 1) },
    };
    assert!(check_reply(10, Ok(response(PROTOCOL_VERSION))).is_ok());
    let words = |result: Result<ResponseBody, IpcError>| result.unwrap_err().message();
    assert_eq!(
        words(check_reply(MAX_REQUEST_BYTES + 1, Ok(response(PROTOCOL_VERSION)))),
        "instance protocol error: reply exceeds the protocol size bound"
    );
    assert_eq!(
        words(check_reply(10, Ok(response(9)))),
        "instance protocol error: unsupported protocol version 9; this build speaks 1"
    );
    assert_eq!(
        words(check_reply(10, Err("eof".to_string()))),
        "instance protocol error: malformed reply: eof"
    );
    let io = IpcError::Io {
        path: b"/s/\xff".to_vec(),
        source: "refused".to_string(),
    };
    assert_eq!(
        io.message(),
        "cannot reach instance socket /s/\u{fffd}: refused"
    );
}
