use kv_storage_rust::domain::{Command, Reply, SetOutcome, StoreStatus};
use kv_storage_rust::metrics::MetricsSnapshot;
use kv_storage_rust::protocol::{
    decode_frame, escape_field, format_error, format_reply, format_server_status, parse_request,
    read_frame, terminate_frame, ProtocolError, Request, MAX_FRAME_BYTES,
};

#[test]
fn parses_set_values_containing_spaces() {
    assert_eq!(
        parse_request("SET course Rust 程序设计").unwrap(),
        Request::Execute(Command::SetValue {
            key: "course".into(),
            value: "Rust 程序设计".into(),
        })
    );
}

#[test]
fn rejects_invalid_command_shapes() {
    assert!(matches!(
        parse_request("GET"),
        Err(ProtocolError::MissingArgument("key"))
    ));
    assert!(matches!(
        parse_request("STATUS extra"),
        Err(ProtocolError::ExtraArguments)
    ));
    assert!(matches!(
        parse_request("UNKNOWN"),
        Err(ProtocolError::UnknownCommand(_))
    ));
}

#[test]
fn reads_one_frame_at_a_time() {
    let input = b"GET course\nSTATUS\n";
    let mut position = 0;
    assert_eq!(
        read_frame(input, &mut position).unwrap(),
        Some("GET course".into())
    );
    assert_eq!(
        read_frame(input, &mut position).unwrap(),
        Some("STATUS".into())
    );
    assert_eq!(read_frame(input, &mut position).unwrap(), None);
}

#[test]
fn reply_fields_cannot_break_the_line_protocol() {
    assert_eq!(
        format_reply(Reply::Value("line1\nline2".into())),
        "VALUE\tline1\\nline2"
    );
}

#[test]
fn parses_clear_and_confirmation_tokens() {
    assert_eq!(parse_request("CLEAR").unwrap(), Request::Clear);
    assert_eq!(parse_request("YES").unwrap(), Request::Yes);
    assert_eq!(parse_request("yes").unwrap(), Request::Yes);
    assert_eq!(parse_request("NO").unwrap(), Request::No);
    assert!(matches!(
        parse_request("CLEAR extra"),
        Err(ProtocolError::ExtraArguments)
    ));
    assert!(matches!(
        parse_request("YES extra"),
        Err(ProtocolError::ExtraArguments)
    ));
}

#[test]
fn formats_enhanced_server_status() {
    let metrics = MetricsSnapshot {
        active_clients: 2,
        total_connections: 5,
        commands_total: 10,
        commands_failed: 3,
        checkpoint_attempts: 2,
        checkpoint_failures: 1,
        bytes_received: 120,
        bytes_sent: 240,
        uptime_seconds: 60,
    };

    assert_eq!(
        format_server_status(4, 1024, 6, 1000, &metrics),
        "STATUS\trunning\tkeys=4\tactive_clients=2\ttotal_connections=5\tcommands_total=10\tcommands_succeeded=7\tcommands_failed=3\tcheckpoint_attempts=2\tcheckpoint_failures=1\twrites_since_checkpoint=6\tcheckpoint_after_writes=1000\tbytes_received=120\tbytes_sent=240\twal_bytes=1024\tuptime_seconds=60"
    );
}

#[test]
fn more_failures_than_commands_leave_no_success() {
    let metrics = MetricsSnapshot {
        active_clients: 0,
        total_connections: 0,
        commands_total: 1,
        commands_failed: 3,
        checkpoint_attempts: 0,
        checkpoint_failures: 0,
        bytes_received: 0,
        bytes_sent: 0,
        uptime_seconds: 0,
    };
    assert!(format_server_status(0, 0, 0, 0, &metrics).contains("\tcommands_succeeded=0\t"));
}

#[test]
fn every_request_has_its_form() {
    let key = || "k".to_string();
    assert_eq!(
        parse_request("update k  a   b").unwrap(),
        Request::Execute(Command::Update {
            key: key(),
            value: "a b".into()
        })
    );
    assert_eq!(
        parse_request("\tGet k\r").unwrap(),
        Request::Execute(Command::Get { key: key() })
    );
    assert_eq!(
        parse_request("delete k").unwrap(),
        Request::Execute(Command::Delete { key: key() })
    );
    assert_eq!(
        parse_request("KEYS").unwrap(),
        Request::Execute(Command::Keys)
    );
    assert_eq!(
        parse_request("Status").unwrap(),
        Request::Execute(Command::Status)
    );
    assert_eq!(parse_request("SAVE").unwrap(), Request::Save);
    assert_eq!(parse_request("quit").unwrap(), Request::Quit);
    assert_eq!(parse_request("EXIT").unwrap(), Request::Quit);
}

#[test]
fn every_shape_error_is_reported() {
    assert_eq!(parse_request(""), Err(ProtocolError::EmptyCommand));
    assert_eq!(
        parse_request(" \u{3000}\t"),
        Err(ProtocolError::EmptyCommand)
    );
    assert_eq!(
        parse_request("SET"),
        Err(ProtocolError::MissingArgument("key"))
    );
    assert_eq!(
        parse_request("SET k"),
        Err(ProtocolError::MissingArgument("value"))
    );
    assert_eq!(
        parse_request("GET k extra"),
        Err(ProtocolError::ExtraArguments)
    );
    assert_eq!(
        parse_request("flüsh x"),
        Err(ProtocolError::UnknownCommand("FLüSH".into()))
    );
}

#[test]
fn frames_lose_their_line_break_only() {
    assert_eq!(decode_frame(b"A\r\n".to_vec()), Ok(Some("A".into())));
    assert_eq!(decode_frame(b"A\r\r\n".to_vec()), Ok(Some("A\r".into())));
    assert_eq!(decode_frame(b"\n".to_vec()), Ok(Some(String::new())));
    assert_eq!(decode_frame(Vec::new()), Ok(None));
    assert_eq!(
        decode_frame("课程\n".as_bytes().to_vec()),
        Ok(Some("课程".into()))
    );
    assert_eq!(
        decode_frame(b"A".to_vec()),
        Err(ProtocolError::TruncatedFrame)
    );
    assert_eq!(
        decode_frame(b"\xff\n".to_vec()),
        Err(ProtocolError::InvalidUtf8)
    );
}

#[test]
fn frames_are_limited_in_size() {
    let mut longest = vec![b'x'; MAX_FRAME_BYTES - 1];
    longest.push(b'\n');
    assert_eq!(
        decode_frame(longest.clone()),
        Ok(Some("x".repeat(MAX_FRAME_BYTES - 1)))
    );
    longest.insert(0, b'x');
    assert_eq!(
        decode_frame(longest.clone()),
        Err(ProtocolError::FrameTooLarge)
    );
    let mut position = 0;
    longest.extend_from_slice(b"GET k\n");
    assert_eq!(
        read_frame(&longest, &mut position),
        Err(ProtocolError::FrameTooLarge)
    );
    assert_eq!(position, MAX_FRAME_BYTES + 1);
    assert_eq!(
        read_frame(&longest, &mut position),
        Ok(Some("GET k".into()))
    );
}

#[test]
fn a_sent_line_is_read_back() {
    let frame = terminate_frame("SET k 值");
    assert_eq!(frame, "SET k 值\n");
    let mut input = frame.clone().into_bytes();
    input.extend_from_slice(b"rest");
    let mut position = 0;
    assert_eq!(
        read_frame(&input, &mut position),
        Ok(Some("SET k 值".into()))
    );
    assert_eq!(position, frame.len());
    assert_eq!(
        read_frame(&input, &mut position),
        Err(ProtocolError::TruncatedFrame)
    );
}

#[test]
fn every_reply_has_its_response() {
    assert_eq!(
        format_reply(Reply::SetValue(SetOutcome::Created)),
        "OK\tCREATED"
    );
    assert_eq!(
        format_reply(Reply::SetValue(SetOutcome::Overwritten {
            old_value: "a\tb".into()
        })),
        "OK\tOVERWRITTEN\ta\\tb"
    );
    assert_eq!(
        format_reply(Reply::Updated {
            old_value: "a\\b".into()
        }),
        "OK\tUPDATED\ta\\\\b"
    );
    assert_eq!(
        format_reply(Reply::Deleted {
            value: "\r\n".into()
        }),
        "OK\tDELETED\t\\r\\n"
    );
    assert_eq!(
        format_reply(Reply::Keys(vec!["a".into(), "b\tc".into()])),
        "KEYS\t2\ta\tb\\tc"
    );
    assert_eq!(format_reply(Reply::Keys(vec![])), "KEYS\t0");
    assert_eq!(
        format_reply(Reply::Status(StoreStatus { key_count: 3 })),
        "STATUS\trunning\tkeys=3"
    );
    assert_eq!(format_error("A\tB", "c\nd"), "ERR\tA\\tB\tc\\nd");
}

#[test]
fn escapes_agree_with_replacing_one_after_the_other() {
    for text in ["", "\\t", "\t", "a\\\n\r\\\\", "\\n\n", "课\t程"] {
        let replaced = text
            .replace('\\', "\\\\")
            .replace('\t', "\\t")
            .replace('\r', "\\r")
            .replace('\n', "\\n");
        assert_eq!(escape_field(text), replaced);
    }
}

#[test]
fn protocol_errors_describe_themselves() {
    let texts = [
        (ProtocolError::Io("x".into()), "读取网络帧失败：x"),
        (ProtocolError::EmptyCommand, "命令不能为空"),
        (
            ProtocolError::UnknownCommand("FOO".into()),
            "未知命令：FOO",
        ),
        (ProtocolError::MissingArgument("key"), "缺少参数：key"),
        (ProtocolError::ExtraArguments, "参数过多"),
        (ProtocolError::FrameTooLarge, "请求超过 64 KiB 限制"),
        (ProtocolError::TruncatedFrame, "连接在完整命令到达前关闭"),
        (ProtocolError::InvalidUtf8, "请求不是合法 UTF-8"),
    ];
    for (error, text) in texts {
        assert_eq!(error.message(), text);
    }
}
