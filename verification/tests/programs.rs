use kv_storage_rust::domain::{Command, DomainError, Reply, SetOutcome, StoreStatus};
use kv_storage_rust::engine::EngineError;
use kv_storage_rust::kv_bench;
use kv_storage_rust::kv_bench::{
    calculate_stats, check_response, collect_samples, csv_header, csv_overall_row,
    csv_second_row, empty_samples, latency_micros, merge_samples, next_command,
    percentile_permille, record_sample, worker_commands, Config, LatencyStats, Schedule,
};
use kv_storage_rust::kv_client;
use kv_storage_rust::kv_memory_server::{
    answer_frame, execute_request, parse_address, poisoned_store_response, FrameAnswer,
};
use kv_storage_rust::kv_server;
use kv_storage_rust::local::{
    format_local_reply, format_result, format_save, parse_data_dir, parse_local_command,
    LocalCommand,
};
use kv_storage_rust::persistence::PersistenceError;
use kv_storage_rust::protocol::{ProtocolError, Request};
use kv_storage_rust::text_map::TextMap;

fn args(list: &[&str]) -> Vec<String> {
    list.iter().map(|text| text.to_string()).collect()
}

// kv-bench

#[test]
fn calculates_tail_percentiles() {
    let mut samples: Vec<u64> = (1..=1_000).collect();
    let stats = calculate_stats(&mut samples);
    assert_eq!(stats.average_us, 500);
    assert_eq!(stats.p50_us, 500);
    assert_eq!(stats.p95_us, 950);
    assert_eq!(stats.p99_us, 990);
    assert_eq!(stats.p999_us, 999);
    assert_eq!(stats.max_us, 1_000);
}

#[test]
fn rejects_more_clients_than_keys() {
    assert!(kv_bench::parse_args(vec![
        "--clients".into(),
        "4".into(),
        "--keys".into(),
        "2".into(),
    ])
    .is_err());
}

#[test]
fn statistics_sort_their_samples() {
    let mut samples = vec![30, 10, 20, 10];
    assert_eq!(
        calculate_stats(&mut samples),
        LatencyStats {
            requests: 4,
            average_us: 17,
            p50_us: 10,
            p95_us: 30,
            p99_us: 30,
            p999_us: 30,
            max_us: 30
        }
    );
    assert_eq!(samples, vec![10, 10, 20, 30]);
    let mut none = Vec::new();
    assert_eq!(
        calculate_stats(&mut none),
        LatencyStats {
            requests: 0,
            average_us: 0,
            p50_us: 0,
            p95_us: 0,
            p99_us: 0,
            p999_us: 0,
            max_us: 0
        }
    );
    let mut large = vec![u64::MAX, u64::MAX, u64::MAX - 3];
    assert_eq!(calculate_stats(&mut large).average_us, u64::MAX - 1);
}

#[test]
fn percentiles_round_their_rank_up() {
    let samples = vec![1, 2, 3];
    assert_eq!(percentile_permille(&samples, 0), 1);
    assert_eq!(percentile_permille(&samples, 333), 1);
    assert_eq!(percentile_permille(&samples, 334), 2);
    assert_eq!(percentile_permille(&samples, 1_000), 3);
    assert_eq!(percentile_permille(&samples, 5_000), 3);
}

#[test]
fn benchmark_options_are_read() {
    let config = kv_bench::parse_args(args(&[
        "--addr", "h:1", "--clients", "2", "--keys", "3", "--value-size", "4",
        "--warmup-seconds", "0", "--duration-seconds", "5", "--rate", "6", "--label", "rust",
        "--output", "o.csv",
    ]))
    .unwrap();
    assert_eq!(
        config,
        Config {
            address: "h:1".into(),
            clients: 2,
            key_count: 3,
            value_size: 4,
            warmup_seconds: 0,
            duration_seconds: 5,
            rate: 6,
            label: "rust".into(),
            output: "o.csv".into()
        }
    );
    let default = kv_bench::parse_args(Vec::new()).unwrap();
    assert_eq!(default, Config::default());
    assert_eq!(default.key_count, 50_000);
    assert_eq!(default.output, "../results/benchmark.csv");
}

#[test]
fn benchmark_options_are_checked() {
    let errors: [(&[&str], &str); 9] = [
        (&["--rate"], "--rate 缺少参数值"),
        (&["--what", "1"], "未知参数：--what"),
        (&["--rate", "x"], "--rate 必须是合法非负整数"),
        (&["--clients", "-1"], "--clients 必须是合法非负整数"),
        (&["--clients", "0"], "--clients 必须大于 0"),
        (&["--keys", "31"], "--keys 不能少于客户端数量"),
        (&["--value-size", "0"], "--value-size 必须大于 0"),
        (&["--duration-seconds", "0"], "--duration-seconds 必须大于 0"),
        (&["--rate", "0"], "--rate 必须大于 0"),
    ];
    for (list, message) in errors {
        assert_eq!(kv_bench::parse_args(args(list)), Err(message.to_string()));
    }
}

fn small_config() -> Config {
    let mut config = Config::default();
    config.clients = 3;
    config.key_count = 7;
    config.value_size = 2;
    config.rate = 2;
    config.duration_seconds = 4;
    config
}

#[test]
fn keys_are_shared_among_clients() {
    let config = small_config();
    assert_eq!(
        worker_commands(1, &config),
        Ok(vec![
            "SET key-00000001 xx\n".to_string(),
            "SET key-00000004 xx\n".to_string()
        ])
    );
    assert_eq!(worker_commands(0, &config).unwrap().len(), 3);
    assert_eq!(
        worker_commands(7, &config),
        Err("客户端没有可用的键".to_string())
    );
}

#[test]
fn requests_are_due_at_the_rate() {
    let config = small_config();
    let mut schedule = Schedule::new(1, &config, 1, 2).unwrap();
    let mut seen = Vec::new();
    while let Some(due) = schedule.next() {
        seen.push((due.offset_nanos, due.second, due.command_index));
        schedule.advance();
    }
    assert_eq!(
        seen,
        vec![(500_000_000, 0, 1), (2_000_000_000, 2, 0), (3_500_000_000, 3, 1)]
    );
    let mut endless = small_config();
    endless.rate = u64::MAX;
    assert_eq!(
        Schedule::new(0, &endless, 0, 1).map(|_| ()),
        Err("请求总数溢出".to_string())
    );
    assert_eq!(next_command(0, 2), 1);
    assert_eq!(next_command(1, 2), 0);
}

#[test]
fn samples_are_kept_by_second() {
    let mut first = empty_samples(2);
    record_sample(&mut first, 0, 5);
    record_sample(&mut first, 1, 6);
    record_sample(&mut first, 2, 7);
    assert_eq!(first, vec![vec![5], vec![6]]);
    let second = vec![vec![1], vec![2, 3], vec![4]];
    merge_samples(&mut first, &second);
    assert_eq!(first, vec![vec![5, 1], vec![6, 2, 3]]);
    assert_eq!(collect_samples(&first), vec![5, 1, 6, 2, 3]);
    assert_eq!(latency_micros(9), 9);
    assert_eq!(latency_micros(u128::MAX), u64::MAX);
}

#[test]
fn write_responses_are_checked() {
    assert_eq!(check_response("OK\n"), Ok(()));
    assert_eq!(check_response("OK\r\n"), Ok(()));
    assert_eq!(
        check_response(" OK\n"),
        Err("服务器返回异常响应： OK".to_string())
    );
    assert_eq!(
        check_response("ERR\tx \n"),
        Err("服务器返回异常响应：ERR\tx".to_string())
    );
}

#[test]
fn the_table_has_fixed_rows() {
    assert_eq!(
        csv_header(),
        "implementation,scope,timestamp_ms,requests,throughput_rps,average_us,p50_us,p95_us,p99_us,p999_us,max_us"
    );
    let stats = LatencyStats {
        requests: 12,
        average_us: 1,
        p50_us: 2,
        p95_us: 3,
        p99_us: 4,
        p999_us: 5,
        max_us: 6,
    };
    assert_eq!(
        csv_second_row("rust", 3, 1_000, &stats),
        "rust,second-3,4000,12,12.00,1,2,3,4,5,6"
    );
    assert_eq!(
        csv_second_row("rust", 3, u128::MAX, &stats),
        format!("rust,second-3,{},12,12.00,1,2,3,4,5,6", u128::MAX)
    );
    assert_eq!(
        csv_overall_row("rust", 1_000, "0.40", &stats),
        "rust,overall,1000,12,0.40,1,2,3,4,5,6"
    );
}

// kv-memory-server

#[test]
fn set_overwrites_without_growing_the_key_count() {
    let mut store = TextMap::new();
    assert_eq!(
        execute_request(
            Request::Execute(Command::SetValue {
                key: "course".into(),
                value: "Rust".into(),
            }),
            &mut store,
        ),
        "OK"
    );
    assert_eq!(
        execute_request(
            Request::Execute(Command::SetValue {
                key: "course".into(),
                value: "Java".into(),
            }),
            &mut store,
        ),
        "OK"
    );
    assert_eq!(store.len(), 1);
}

#[test]
fn the_memory_server_answers_every_request() {
    let mut store = TextMap::new();
    let key = || "k".to_string();
    let value = || "v".to_string();
    let update = || {
        Request::Execute(Command::Update {
            key: key(),
            value: value(),
        })
    };
    let get = || Request::Execute(Command::Get { key: key() });
    let delete = || Request::Execute(Command::Delete { key: key() });
    assert_eq!(execute_request(update(), &mut store), "ERR\tNOT_FOUND\tk");
    assert_eq!(execute_request(get(), &mut store), "ERR\tNOT_FOUND\tk");
    assert_eq!(execute_request(delete(), &mut store), "ERR\tNOT_FOUND\tk");
    execute_request(
        Request::Execute(Command::SetValue {
            key: key(),
            value: "1".into(),
        }),
        &mut store,
    );
    assert_eq!(execute_request(update(), &mut store), "OK");
    assert_eq!(execute_request(get(), &mut store), "VALUE\tv");
    assert_eq!(
        execute_request(Request::Execute(Command::Keys), &mut store),
        "KEYS\t1\tk"
    );
    assert_eq!(
        execute_request(Request::Execute(Command::Status), &mut store),
        "STATUS\trunning\tkeys=1"
    );
    assert_eq!(
        execute_request(Request::Save, &mut store),
        "ERR\tUNSUPPORTED\t纯内存实验模式不支持 SAVE"
    );
    assert_eq!(
        execute_request(Request::Clear, &mut store),
        "ERR\tUNSUPPORTED\t纯内存实验模式不支持 CLEAR"
    );
    assert_eq!(execute_request(Request::Quit, &mut store), "OK\tBYE");
    assert_eq!(execute_request(delete(), &mut store), "OK");
    assert_eq!(store.len(), 0);
    assert_eq!(
        poisoned_store_response(),
        "ERR\tINTERNAL\t共享内存锁已中毒"
    );
}

#[test]
fn the_memory_server_answers_frames() {
    assert_eq!(answer_frame(Ok(None)), FrameAnswer::Closed);
    assert_eq!(
        answer_frame(Err(ProtocolError::FrameTooLarge)),
        FrameAnswer::Respond {
            response: "ERR\tPROTOCOL\t请求超过 64 KiB 限制".into(),
            close: true
        }
    );
    assert_eq!(
        answer_frame(Ok(Some("".into()))),
        FrameAnswer::Respond {
            response: "ERR\tINVALID_COMMAND\t命令不能为空".into(),
            close: false
        }
    );
    assert_eq!(
        answer_frame(Ok(Some("quit".into()))),
        FrameAnswer::Execute {
            request: Request::Quit,
            close: true
        }
    );
    assert_eq!(
        answer_frame(Ok(Some("KEYS".into()))),
        FrameAnswer::Execute {
            request: Request::Execute(Command::Keys),
            close: false
        }
    );
}

// kv-server and kv-client

#[test]
fn parses_server_options() {
    let config = kv_server::parse_args(vec![
        "--addr".into(),
        "127.0.0.1:9000".into(),
        "--data-dir".into(),
        "test-data".into(),
        "--checkpoint-after".into(),
        "25".into(),
    ])
    .unwrap();
    assert_eq!(config.address, "127.0.0.1:9000");
    assert_eq!(config.data_dir, "test-data");
    assert_eq!(config.checkpoint_after_writes, 25);
}

#[test]
fn server_options_are_checked() {
    let errors: [(&[&str], &str); 6] = [
        (&["--addr"], "--addr 缺少 IP:PORT"),
        (&["--data-dir"], "--data-dir 缺少 PATH"),
        (&["--checkpoint-after"], "--checkpoint-after 缺少非负整数"),
        (
            &["--checkpoint-after", "-1"],
            "--checkpoint-after 必须是非负整数",
        ),
        (&["--what"], "未知参数：--what"),
        (&["--addr", "a", "extra"], "未知参数：extra"),
    ];
    for (list, message) in errors {
        assert_eq!(kv_server::parse_args(args(list)), Err(message.to_string()));
    }
    assert_eq!(
        kv_server::parse_args(args(&["--addr", "a", "--addr", "b"]))
            .unwrap()
            .address,
        "b"
    );
}

#[test]
fn uses_default_or_explicit_address() {
    assert_eq!(kv_client::parse_args(Vec::new()).unwrap(), "127.0.0.1:7878");
    assert_eq!(
        kv_client::parse_args(vec!["--addr".into(), "127.0.0.1:9000".into()]).unwrap(),
        "127.0.0.1:9000"
    );
    assert_eq!(
        parse_address(vec!["--addr".into(), "127.0.0.1:9000".into()]).unwrap(),
        "127.0.0.1:9000"
    );
    assert_eq!(
        kv_client::parse_args(args(&["--port", "1"])),
        Err("只支持可选参数 --addr IP:PORT".to_string())
    );
    assert!(kv_client::parse_args(args(&["--addr"])).is_err());
}

// The local command line

#[test]
fn parses_a_value_containing_spaces() {
    let LocalCommand::Domain(Command::SetValue { key, value }) =
        parse_local_command("SET course Rust 程序设计").unwrap()
    else {
        panic!("expected SET command");
    };

    assert_eq!(key, "course");
    assert_eq!(value, "Rust 程序设计");
}

#[test]
fn rejects_missing_and_extra_arguments() {
    assert!(parse_local_command("SET course").is_err());
    assert!(parse_local_command("GET course extra").is_err());
    assert!(parse_local_command("STATUS extra").is_err());
    assert!(parse_local_command("SAVE extra").is_err());
}

#[test]
fn parses_the_optional_data_directory() {
    assert_eq!(parse_data_dir(Vec::new()).unwrap(), "data");
    assert_eq!(
        parse_data_dir(vec!["--data-dir".into(), "test-data".into()]).unwrap(),
        "test-data"
    );
    assert_eq!(
        parse_data_dir(args(&["x"])),
        Err("用法：kv_storage_rust [--data-dir PATH]".to_string())
    );
}

#[test]
fn local_lines_are_told_apart() {
    assert_eq!(parse_local_command(" Help \n"), Ok(LocalCommand::Help));
    assert_eq!(parse_local_command("save\n"), Ok(LocalCommand::Save));
    assert_eq!(parse_local_command("EXIT"), Ok(LocalCommand::Exit));
    assert_eq!(
        parse_local_command("keys"),
        Ok(LocalCommand::Domain(Command::Keys))
    );
    assert_eq!(
        parse_local_command("\n"),
        Err("命令不能为空".to_string())
    );
    assert_eq!(
        parse_local_command("clear"),
        Err("本地模式不支持 CLEAR".to_string())
    );
}

#[test]
fn local_results_are_shown() {
    let texts = [
        (Reply::SetValue(SetOutcome::Created), "OK CREATED"),
        (
            Reply::SetValue(SetOutcome::Overwritten {
                old_value: "a".into(),
            }),
            "OK OVERWRITTEN old=a",
        ),
        (
            Reply::Updated {
                old_value: "a".into(),
            },
            "OK UPDATED old=a",
        ),
        (Reply::Value("v".into()), "VALUE v"),
        (Reply::Deleted { value: "v".into() }, "OK DELETED value=v"),
        (
            Reply::Keys(vec!["a".into(), "b".into()]),
            "KEYS 2\n  a\n  b",
        ),
        (Reply::Keys(vec![]), "KEYS 0"),
        (
            Reply::Status(StoreStatus { key_count: 4 }),
            "STATUS running keys=4",
        ),
    ];
    for (reply, text) in texts {
        assert_eq!(format_local_reply(&reply), text);
        assert_eq!(format_result(&Ok(reply)), text);
    }
    assert_eq!(
        format_result(&Err(EngineError::Domain(DomainError::EmptyKey))),
        "ERR EMPTY_KEY key 不能为空"
    );
    assert_eq!(
        format_result(&Err(EngineError::Domain(DomainError::NotFound {
            key: "k".into()
        }))),
        "ERR NOT_FOUND k"
    );
    let failed = EngineError::Persistence(PersistenceError::UnsupportedCommand);
    assert_eq!(
        format_result(&Err(failed.clone())),
        "ERR PERSISTENCE command cannot be stored in the WAL"
    );
    assert_eq!(format_save(&Ok(())), "OK SNAPSHOT_SAVED");
    assert_eq!(
        format_save(&Err(failed)),
        "ERR SNAPSHOT command cannot be stored in the WAL"
    );
}
