use kv_storage_rust::client::{
    format_bytes, format_duration, format_response_for_display, format_status_for_display,
    leading_digits_of, repl_action, request_frame, response_of_frame, ClientError, ReplAction,
};
use kv_storage_rust::metrics::MetricsSnapshot;
use kv_storage_rust::protocol::{
    decode_frame, format_server_status, ProtocolError, MAX_FRAME_BYTES,
};

#[test]
fn status_is_grouped_for_terminal_display() {
    let response = "STATUS\trunning\tkeys=4\tactive_clients=2\ttotal_connections=5\tcommands_total=10\tcommands_succeeded=7\tcommands_failed=3\tcheckpoint_attempts=2\tcheckpoint_failures=1\twrites_since_checkpoint=6\tcheckpoint_after_writes=1000\tbytes_received=120\tbytes_sent=2048\twal_bytes=1024\tuptime_seconds=65";
    let display = format_response_for_display(response);

    assert!(display.contains("[运行]\n  状态：正常运行\n  已运行：1 分 5 秒"));
    assert!(display.contains("[数据与持久化]"));
    assert!(display.contains("WAL 大小：1.00 KiB（1024 B）"));
    assert!(display.contains("快照尝试 / 失败：2 / 1"));
    assert!(display.contains("[命令]\n  总计 / 成功 / 失败：10 / 7 / 3"));
    assert!(display.contains("发送：2.00 KiB（2048 B）"));
}

#[test]
fn ordinary_response_keeps_the_compact_display() {
    assert_eq!(format_response_for_display("OK\tCREATED"), "OK  CREATED");
}

#[test]
fn the_whole_status_display_is_fixed() {
    let display = format_status_for_display(
        "STATUS\tstopping\tkeys=1\tkeys=2\tcheckpoint_after_writes=0\twal_bytes=a=b\tnoise",
    )
    .unwrap();
    let expected = [
        "========== 服务器状态 ==========",
        "[运行]",
        "  状态：stopping",
        "  已运行：未知",
        "[数据与持久化]",
        "  键数量：2",
        "  WAL 大小：a=b",
        "  快照后写入：未知 次",
        "  自动快照阈值：已关闭",
        "  快照尝试 / 失败：未知 / 未知",
        "[连接]",
        "  当前客户端：未知",
        "  累计连接：未知",
        "[命令]",
        "  总计 / 成功 / 失败：未知 / 未知 / 未知",
        "[网络流量]",
        "  接收：未知",
        "  发送：未知",
        "================================",
    ];
    assert_eq!(display, expected.join("\n"));
}

#[test]
fn only_a_status_is_shown_as_one() {
    assert_eq!(format_status_for_display("STATUS"), None);
    assert_eq!(format_status_for_display("OK\tBYE"), None);
    assert_eq!(format_response_for_display("STATUS"), "STATUS");
    assert_eq!(format_response_for_display(""), "");
}

#[test]
fn bytes_are_shown_as_floating_point_shows_them() {
    let mut samples: Vec<u64> = vec![
        0,
        1,
        1_023,
        1_024,
        1_029,
        1_030,
        5 * 1_024 + 128,
        5 * 1_024 + 384,
        1_048_575,
        1_048_576,
        1_053_819,
        (1 << 53) - 1,
        1 << 53,
        (1 << 53) + 1,
        (1 << 53) + 3,
        u64::MAX,
        u64::MAX - 1_024,
        u64::MAX - 3_072,
    ];
    let mut state: u64 = 42;
    for shift in 0..64 {
        for _ in 0..40 {
            state = state
                .wrapping_mul(6_364_136_223_846_793_005)
                .wrapping_add(1_442_695_040_888_963_407);
            samples.push(state >> shift);
        }
    }
    for k in 0..4_096u64 {
        samples.push(1_024 + k * 32);
        samples.push(1_048_576 + k * 5_243);
    }
    for bytes in samples {
        let expected = if bytes < 1_024 {
            format!("{bytes} B")
        } else if bytes < 1_024 * 1_024 {
            format!("{:.2} KiB（{bytes} B）", bytes as f64 / 1_024.0)
        } else {
            format!("{:.2} MiB（{bytes} B）", bytes as f64 / (1_024.0 * 1_024.0))
        };
        assert_eq!(format_bytes(&bytes.to_string()), expected);
        assert_eq!(leading_digits_of(bytes), bytes as f64 as u128);
    }
    assert_eq!(format_bytes("many"), "many");
    assert_eq!(format_bytes("+7"), "7 B");
}

#[test]
fn durations_are_shown_in_parts() {
    assert_eq!(format_duration("0"), "0 秒");
    assert_eq!(format_duration("59"), "59 秒");
    assert_eq!(format_duration("60"), "1 分 0 秒");
    assert_eq!(format_duration("3599"), "59 分 59 秒");
    assert_eq!(format_duration("3600"), "1 小时 0 分 0 秒");
    assert_eq!(format_duration("90061"), "25 小时 1 分 1 秒");
    assert_eq!(format_duration("soon"), "soon");
}

#[test]
fn commands_are_framed_or_refused() {
    assert_eq!(request_frame("GET 课程"), Ok("GET 课程\n".into()));
    assert_eq!(
        request_frame("GET a\nGET b"),
        Err(ClientError::InvalidCommand(
            "一条命令中不能包含换行符".into()
        ))
    );
    assert!(request_frame("GET a\r").is_err());
    let longest = "x".repeat(MAX_FRAME_BYTES - 1);
    assert!(request_frame(&longest).is_ok());
    assert_eq!(
        request_frame(&format!("{longest}x")),
        Err(ClientError::InvalidCommand("命令超过 64 KiB 限制".into()))
    );
}

#[test]
fn a_framed_command_arrives_as_it_was_given() {
    for command in ["GET k", "", "SET 课程 Rust 程序设计", " padded "] {
        let frame = request_frame(command).unwrap();
        assert_eq!(
            decode_frame(frame.into_bytes()),
            Ok(Some(command.to_string()))
        );
    }
}

#[test]
fn responses_come_from_frames() {
    assert_eq!(response_of_frame(Ok(Some("OK".into()))), Ok("OK".into()));
    assert_eq!(
        response_of_frame(Ok(None)),
        Err(ClientError::ConnectionClosed)
    );
    assert_eq!(
        response_of_frame(Err(ProtocolError::InvalidUtf8)),
        Err(ClientError::Protocol(ProtocolError::InvalidUtf8))
    );
}

#[test]
fn input_lines_are_told_apart() {
    assert_eq!(repl_action(" help\n"), ReplAction::Help);
    assert_eq!(repl_action("  \n"), ReplAction::Nothing);
    assert_eq!(
        repl_action("get k\r\n"),
        ReplAction::Send {
            command: "get k".into(),
            quit: false
        }
    );
    assert_eq!(
        repl_action("exit\n"),
        ReplAction::Send {
            command: "exit".into(),
            quit: true
        }
    );
    assert_eq!(
        repl_action("Quit"),
        ReplAction::Send {
            command: "Quit".into(),
            quit: true
        }
    );
}

#[test]
fn client_errors_describe_themselves() {
    assert_eq!(
        ClientError::Io {
            action: "连接服务器",
            source: "refused".into()
        }
        .message(),
        "连接服务器失败：refused"
    );
    assert_eq!(
        ClientError::Protocol(ProtocolError::TruncatedFrame).message(),
        "服务器响应格式错误：连接在完整命令到达前关闭"
    );
    assert_eq!(
        ClientError::ConnectionClosed.message(),
        "服务器在返回响应前关闭了连接"
    );
    assert_eq!(
        ClientError::InvalidCommand("x".into()).message(),
        "命令无效：x"
    );
}

#[test]
fn the_status_of_the_server_is_found_by_the_client() {
    let metrics = MetricsSnapshot {
        active_clients: 2,
        total_connections: 3,
        commands_total: 9,
        commands_failed: 4,
        checkpoint_attempts: 6,
        checkpoint_failures: 1,
        bytes_received: 7,
        bytes_sent: 8,
        uptime_seconds: 10,
    };
    let display =
        format_status_for_display(&format_server_status(11, 12, 13, 14, &metrics)).unwrap();
    let lines: Vec<&str> = display.split('\n').collect();
    assert_eq!(lines[3], "  已运行：10 秒");
    assert_eq!(lines[5], "  键数量：11");
    assert_eq!(lines[6], "  WAL 大小：12 B");
    assert_eq!(lines[7], "  快照后写入：13 次");
    assert_eq!(lines[8], "  自动快照阈值：14 次写入");
    assert_eq!(lines[9], "  快照尝试 / 失败：6 / 1");
    assert_eq!(lines[11], "  当前客户端：2");
    assert_eq!(lines[12], "  累计连接：3");
    assert_eq!(lines[14], "  总计 / 成功 / 失败：9 / 5 / 4");
    assert_eq!(lines[16], "  接收：7 B");
    assert_eq!(lines[17], "  发送：8 B");
}
