use kv_storage_rust::domain::{Command, Reply};
use kv_storage_rust::engine::{
    Completion, DiskAction, DiskEvent, Engine, EngineError, ExecutionOutcome, Step,
};
use kv_storage_rust::metrics::ServerMetrics;
use kv_storage_rust::persistence::format::encode_header;
use kv_storage_rust::persistence::{PersistenceError, SnapshotFile, SnapshotRepository};
use kv_storage_rust::protocol::{decode_frame, ProtocolError, Request, MAX_FRAME_BYTES};
use kv_storage_rust::server::{
    begin_work, clear_response, completion_response, count_response, count_sent,
    describe_request, execution_response, is_error, operation_log, poisoned_engine_response,
    save_response, status_response, summarize_response, truncate_for_log, FrameStep, Plan,
    ServerConfig, ServerError, Session, Work, DEFAULT_CHECKPOINT_AFTER_WRITES,
};

/// A server without a network: the files, the engine, the counters and one session.
struct Server {
    snapshot: Option<SnapshotFile>,
    log: Vec<u8>,
    engine: Engine,
    metrics: ServerMetrics,
    session: Session,
    threshold: u64,
}

fn open(snapshot: &Option<SnapshotFile>, log: &[u8]) -> Engine {
    let repository = SnapshotRepository::new("snapshot.json".into());
    let loaded = snapshot
        .as_ref()
        .map(|snapshot| repository.load(Ok(snapshot.clone())).unwrap());
    Engine::open(repository, loaded, "wal.log".into(), log).unwrap()
}

impl Server {
    fn new(threshold: u64) -> Self {
        let log = encode_header(0).into_bytes();
        let engine = open(&None, &log);
        let mut metrics = ServerMetrics::new();
        let _guard = metrics.connection_opened();
        Self {
            snapshot: None,
            log,
            engine,
            metrics,
            session: Session::new(),
            threshold,
        }
    }

    fn finish(&mut self, mut step: Step) -> Completion {
        loop {
            match step {
                Step::Finished(completion) => return completion,
                Step::Perform(action, pending) => {
                    match action {
                        DiskAction::AppendLog { record } => {
                            self.log.extend_from_slice(record.as_bytes())
                        }
                        DiskAction::ReplaceSnapshot { snapshot, .. } => {
                            self.snapshot = Some(snapshot)
                        }
                        DiskAction::ReplaceLog { header } => self.log = header.into_bytes(),
                    }
                    step = self.engine.resume(pending, DiskEvent::Done);
                }
            }
        }
    }

    fn work(&mut self, work: Work) -> String {
        match begin_work(&mut self.engine, work, self.threshold) {
            None => status_response(
                &self.engine,
                Ok(self.log.len() as u64),
                self.threshold,
                &self.metrics.snapshot(0),
            ),
            Some(step) => {
                let completion = self.finish(step);
                completion_response(completion, &mut self.metrics)
            }
        }
    }

    fn send(&mut self, line: &str) -> String {
        let mut session = std::mem::take(&mut self.session);
        let response = self.send_in(&mut session, line);
        self.session = session;
        response
    }

    fn send_in(&mut self, session: &mut Session, line: &str) -> String {
        let step = session.accept(Ok(Some(line.to_string())), &mut self.metrics);
        let response = match step {
            FrameStep::Invalid { response } => response,
            FrameStep::Planned { plan, .. } => {
                let response = match plan {
                    Plan::Answer(response) => response,
                    Plan::Do(work) => self.work(work),
                };
                count_response(&response, &mut self.metrics);
                response
            }
            other => panic!("{other:?}"),
        };
        count_sent(&response, &mut self.metrics);
        response
    }
}

#[test]
fn one_client_can_use_the_server_and_data_survives() {
    let mut client = Server::new(DEFAULT_CHECKPOINT_AFTER_WRITES);

    assert_eq!(client.send("SET course Rust 程序设计"), "OK\tCREATED");
    assert_eq!(client.send("GET course"), "VALUE\tRust 程序设计");
    assert!(client.send("UNKNOWN").starts_with("ERR\tINVALID_COMMAND\t"));
    let status = client.send("STATUS");
    assert!(status.starts_with("STATUS\trunning\tkeys=1\t"));
    assert!(status.contains("\tactive_clients=1\t"));
    assert!(status.contains("\ttotal_connections=1\t"));
    assert!(status.contains("\tcommands_total=4\t"));
    assert!(status.contains("\tcommands_succeeded=3\t"));
    assert!(status.contains("\tcommands_failed=1\t"));
    assert!(status.contains("\tcheckpoint_attempts=0\t"));
    assert!(status.contains("\tcheckpoint_failures=0\t"));
    assert!(status.contains("\twrites_since_checkpoint=1\t"));
    assert!(status.contains("\tcheckpoint_after_writes=1000\t"));
    assert!(status.contains("\tbytes_received="));
    assert!(status.contains("\tbytes_sent="));
    assert!(status.contains("\twal_bytes="));
    assert!(status.contains("\tuptime_seconds="));
    assert_eq!(client.send("SAVE"), "OK\tSNAPSHOT_SAVED");
    assert_eq!(client.send("QUIT"), "OK\tBYE");

    assert!(client.snapshot.is_some());

    let mut recovered = open(&client.snapshot, &client.log);
    assert_eq!(
        recovered.execute(Command::Get {
            key: "course".into(),
        }),
        Step::Finished(Completion::Executed(Ok(Reply::Value(
            "Rust 程序设计".into()
        ))))
    );
}

#[test]
fn the_largest_request_fits_in_the_log() {
    let mut client = Server::new(0);
    let value = "x".repeat(MAX_FRAME_BYTES - "SET k \n".len());
    let frame = format!("SET k {value}\n").into_bytes();
    assert_eq!(frame.len(), MAX_FRAME_BYTES);
    let line = decode_frame(frame).unwrap().unwrap();
    assert_eq!(client.send(&line), "OK\tCREATED");
    let mut recovered = open(&None, &client.log);
    assert_eq!(
        recovered.execute(Command::Get { key: "k".into() }),
        Step::Finished(Completion::Executed(Ok(Reply::Value(value))))
    );
}

#[test]
fn multiple_clients_can_write_concurrently_without_losing_data() {
    const CLIENT_COUNT: usize = 6;
    const KEYS_PER_CLIENT: usize = 10;

    let mut server = Server::new(DEFAULT_CHECKPOINT_AFTER_WRITES);
    let mut clients: Vec<Session> = (0..CLIENT_COUNT).map(|_| Session::new()).collect();

    for (client_id, client) in clients.iter_mut().enumerate() {
        assert!(server
            .send_in(client, &format!("SET shared client-{client_id}"))
            .starts_with("OK\t"));
    }
    for key_id in 0..KEYS_PER_CLIENT {
        for (client_id, client) in clients.iter_mut().enumerate() {
            let key = format!("client-{client_id}-key-{key_id}");
            let value = format!("value-{client_id}-{key_id}");
            assert_eq!(
                server.send_in(client, &format!("SET {key} {value}")),
                "OK\tCREATED"
            );
            assert_eq!(
                server.send_in(client, &format!("GET {key}")),
                format!("VALUE\t{value}")
            );
        }
    }
    for client in clients.iter_mut() {
        assert_eq!(server.send_in(client, "QUIT"), "OK\tBYE");
    }

    let recovered = open(&None, &server.log);
    assert_eq!(
        recovered.status().key_count,
        CLIENT_COUNT * KEYS_PER_CLIENT + 1
    );
}

#[test]
fn server_automatically_snapshots_and_compacts_wal() {
    let mut client = Server::new(2);
    assert_eq!(client.send("SET course Rust"), "OK\tCREATED");
    assert_eq!(client.send("SET teacher 李老师"), "OK\tCREATED");

    let status = client.send("STATUS");
    assert!(status.contains("\tcheckpoint_attempts=1\t"));
    assert!(status.contains("\tcheckpoint_failures=0\t"));
    assert!(status.contains("\twrites_since_checkpoint=0\t"));
    assert!(status.contains("\tcheckpoint_after_writes=2\t"));
    assert_eq!(client.send("QUIT"), "OK\tBYE");

    assert!(client.snapshot.is_some());
    assert_eq!(
        String::from_utf8(client.log.clone()).unwrap(),
        "RUST_KV_WAL\t2\t2\n"
    );
    assert_eq!(open(&client.snapshot, &client.log).status().key_count, 2);
}

#[test]
fn poisoned_engine_lock_returns_an_error_instead_of_panicking() {
    assert_eq!(
        poisoned_engine_response(),
        "ERR\tINTERNAL\t共享存储引擎锁已中毒，请重启服务器并执行数据恢复"
    );
}

#[test]
fn all_data_is_removed_only_after_a_confirmation() {
    let mut client = Server::new(0);
    client.send("SET a 1");
    client.send("SET b 2");
    assert_eq!(
        client.send("YES"),
        "ERR\tINVALID_COMMAND\t没有等待确认的操作"
    );
    assert_eq!(
        client.send("NO"),
        "ERR\tINVALID_COMMAND\t没有等待确认的操作"
    );
    assert_eq!(client.send("CLEAR"), "OK\tCONFIRM_REQUIRED");
    assert_eq!(client.send("NO"), "OK\tCLEAR_CANCELLED");
    assert!(client.send("YES").starts_with("ERR\t"));
    assert_eq!(client.send("CLEAR"), "OK\tCONFIRM_REQUIRED");
    assert_eq!(client.send("KEYS"), "KEYS\t2\ta\tb");
    assert!(client.send("YES").starts_with("ERR\t"));
    assert_eq!(client.send("CLEAR"), "OK\tCONFIRM_REQUIRED");
    assert!(client.send("what").starts_with("ERR\tINVALID_COMMAND\t"));
    assert_eq!(client.send("yes"), "OK\tCLEARED\t2");
    assert_eq!(client.send("KEYS"), "KEYS\t0");
    assert_eq!(
        String::from_utf8(client.log.clone()).unwrap(),
        "RUST_KV_WAL\t2\t2\n"
    );
    assert_eq!(client.metrics.snapshot(0).checkpoint_attempts, 1);
}

#[test]
fn frames_lead_to_steps() {
    let mut session = Session::default();
    let mut metrics = ServerMetrics::new();
    assert_eq!(
        session.accept(Ok(None), &mut metrics),
        FrameStep::Closed
    );
    assert_eq!(metrics.snapshot(0).commands_total, 0);
    assert_eq!(
        session.accept(Err(ProtocolError::TruncatedFrame), &mut metrics),
        FrameStep::Broken {
            response: "ERR\tPROTOCOL\t连接在完整命令到达前关闭".into()
        }
    );
    assert_eq!(
        session.accept(Ok(Some("GET".into())), &mut metrics),
        FrameStep::Invalid {
            response: "ERR\tINVALID_COMMAND\t缺少参数：key".into()
        }
    );
    let counted = metrics.snapshot(0);
    assert_eq!(counted.commands_total, 2);
    assert_eq!(counted.commands_failed, 2);
    assert_eq!(counted.bytes_received, 4);
    assert_eq!(
        session.accept(Ok(Some("get 键".into())), &mut metrics),
        FrameStep::Planned {
            operation: "GET key=键".into(),
            plan: Plan::Do(Work::Execute(Command::Get { key: "键".into() })),
            close: false
        }
    );
    assert_eq!(metrics.snapshot(0).bytes_received, 4 + 8);
    assert_eq!(
        session.accept(Ok(Some("exit".into())), &mut metrics),
        FrameStep::Planned {
            operation: "QUIT".into(),
            plan: Plan::Answer("OK\tBYE".into()),
            close: true
        }
    );
}

#[test]
fn requests_are_described_without_values() {
    let key = || "k".to_string();
    let value = || "v".to_string();
    let texts = [
        (
            Request::Execute(Command::SetValue {
                key: key(),
                value: value(),
            }),
            "SET key=k",
        ),
        (
            Request::Execute(Command::Update {
                key: key(),
                value: value(),
            }),
            "UPDATE key=k",
        ),
        (
            Request::Execute(Command::Delete { key: key() }),
            "DELETE key=k",
        ),
        (Request::Execute(Command::Keys), "KEYS"),
        (Request::Execute(Command::Status), "STATUS"),
        (Request::Save, "SAVE"),
        (Request::Clear, "CLEAR"),
        (Request::Yes, "YES"),
        (Request::No, "NO"),
        (Request::Quit, "QUIT"),
    ];
    for (request, text) in texts {
        assert_eq!(describe_request(&request), text);
    }
}

fn full() -> EngineError {
    EngineError::Persistence(PersistenceError::io(
        "append WAL",
        "wal.log".into(),
        "full".into(),
    ))
}

#[test]
fn results_of_the_engine_become_responses() {
    let mut metrics = ServerMetrics::new();
    let outcome = |auto_checkpoint| {
        Ok(ExecutionOutcome {
            reply: Reply::Value("v".into()),
            auto_checkpoint,
        })
    };
    assert_eq!(execution_response(outcome(None), &mut metrics), "VALUE\tv");
    assert_eq!(
        execution_response(outcome(Some(Ok(()))), &mut metrics),
        "VALUE\tv"
    );
    assert_eq!(
        execution_response(outcome(Some(Err(full()))), &mut metrics),
        "VALUE\tv\tWARNING=AUTO_CHECKPOINT_FAILED"
    );
    assert_eq!(
        execution_response(Err(full()), &mut metrics),
        "ERR\tPERSISTENCE\tappend WAL wal.log failed: full"
    );
    assert_eq!(
        execution_response(
            Err(EngineError::Domain(
                kv_storage_rust::domain::DomainError::EmptyKey
            )),
            &mut metrics
        ),
        "ERR\tDOMAIN\tkey must not be empty"
    );
    assert_eq!(
        save_response(Err(full()), &mut metrics),
        "ERR\tPERSISTENCE\tappend WAL wal.log failed: full"
    );
    assert_eq!(
        clear_response(Err(full()), &mut metrics),
        "ERR\tPERSISTENCE\tappend WAL wal.log failed: full"
    );
    assert_eq!(clear_response(Ok(12), &mut metrics), "OK\tCLEARED\t12");
    let counted = metrics.snapshot(0);
    assert_eq!(counted.checkpoint_attempts, 5);
    assert_eq!(counted.checkpoint_failures, 3);
    let log = encode_header(0).into_bytes();
    assert_eq!(
        status_response(
            &open(&None, &log),
            Err(PersistenceError::io(
                "read WAL metadata",
                "wal.log".into(),
                "gone".into()
            )),
            1,
            &counted
        ),
        "ERR\tPERSISTENCE\tread WAL metadata wal.log failed: gone"
    );
}

#[test]
fn results_without_a_checkpoint_have_responses_too() {
    let mut metrics = ServerMetrics::new();
    assert_eq!(
        completion_response(
            Completion::Executed(Ok(Reply::Value("v".into()))),
            &mut metrics
        ),
        "VALUE\tv"
    );
    assert_eq!(
        completion_response(Completion::Executed(Err(full())), &mut metrics),
        "ERR\tPERSISTENCE\tappend WAL wal.log failed: full"
    );
    assert_eq!(metrics.snapshot(0).checkpoint_attempts, 0);
}

#[test]
fn error_responses_are_recognised() {
    assert!(is_error("ERR\tDOMAIN\tx"));
    assert!(is_error("ERR\t"));
    assert!(!is_error("ERR"));
    assert!(!is_error("ERROR\t"));
    assert!(!is_error("OK\tBYE"));
    assert!(!is_error(""));
}

#[test]
fn responses_are_summarised() {
    let texts = [
        ("ERR\tDOMAIN\tx", "失败(DOMAIN)"),
        ("ERR", "失败(UNKNOWN)"),
        ("OK\tCREATED", "成功(CREATED)"),
        ("OK", "成功(OK)"),
        ("VALUE\tv", "成功(已返回值)"),
        ("KEYS\t2\ta\tb", "成功(返回 2 个键)"),
        ("KEYS", "成功(返回 ? 个键)"),
        ("STATUS\trunning", "成功(已返回状态)"),
        ("", "已响应"),
    ];
    for (response, summary) in texts {
        assert_eq!(summarize_response(response), summary);
    }
}

#[test]
fn long_lines_are_cut_in_the_log() {
    assert_eq!(truncate_for_log("短"), "短");
    let limit = "键".repeat(80);
    assert_eq!(truncate_for_log(&limit), limit);
    assert_eq!(truncate_for_log(&format!("{limit}x")), format!("{limit}…"));
}

#[test]
fn operations_are_logged_with_their_latency() {
    assert_eq!(
        operation_log("127.0.0.1:5", "GET key=k", "VALUE\tv", 999),
        "[实时反馈] 客户端=127.0.0.1:5 | 操作=GET key=k | 结果=成功(已返回值) | 耗时=<1 ms"
    );
    assert_eq!(
        operation_log("p", "SAVE", "OK\tSNAPSHOT_SAVED", 2_999),
        "[实时反馈] 客户端=p | 操作=SAVE | 结果=成功(SNAPSHOT_SAVED) | 耗时=2 ms"
    );
}

#[test]
fn the_server_has_defaults_and_errors() {
    assert_eq!(
        ServerConfig::default(),
        ServerConfig {
            address: "127.0.0.1:7878".into(),
            data_dir: "data".into(),
            checkpoint_after_writes: 1_000
        }
    );
    assert_eq!(
        ServerError::Io {
            action: "绑定监听地址",
            source: "in use".into()
        }
        .message(),
        "绑定监听地址失败：in use"
    );
    assert_eq!(
        ServerError::Engine(full()).message(),
        "存储引擎错误：append WAL wal.log failed: full"
    );
}
