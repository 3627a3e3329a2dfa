use kv_storage_rust::domain::{Command, DomainError, Reply, SetOutcome};
use kv_storage_rust::engine::{
    is_mutation, Completion, DiskAction, DiskEvent, Engine, EngineError, ExecutionOutcome, Pending,
    Purpose, Step,
};
use kv_storage_rust::persistence::format::encode_header;
use kv_storage_rust::persistence::{PersistenceError, SnapshotFile, SnapshotRepository};

/// The two files of a data directory.
#[derive(Clone)]
struct Disk {
    snapshot: Option<SnapshotFile>,
    log: Vec<u8>,
}

impl Disk {
    fn new() -> Self {
        Self {
            snapshot: None,
            log: encode_header(0).into_bytes(),
        }
    }

    fn open(&self) -> Result<Engine, EngineError> {
        let repository = SnapshotRepository::new("snapshot.json".into());
        let loaded = match &self.snapshot {
            None => None,
            Some(snapshot) => Some(repository.load(Ok(snapshot.clone())).unwrap()),
        };
        Engine::open(repository, loaded, "wal.log".into(), &self.log)
    }

    fn perform(&mut self, action: DiskAction) {
        match action {
            DiskAction::AppendLog { record } => self.log.extend_from_slice(record.as_bytes()),
            DiskAction::ReplaceSnapshot { snapshot, .. } => self.snapshot = Some(snapshot),
            DiskAction::ReplaceLog { header } => self.log = header.into_bytes(),
        }
    }

    fn finish(&mut self, engine: &mut Engine, mut step: Step) -> Completion {
        loop {
            match step {
                Step::Finished(completion) => return completion,
                Step::Perform(action, pending) => {
                    self.perform(action);
                    step = engine.resume(pending, DiskEvent::Done);
                }
            }
        }
    }

    fn execute(&mut self, engine: &mut Engine, command: Command) -> Result<Reply, EngineError> {
        let step = engine.execute(command);
        match self.finish(engine, step) {
            Completion::Executed(result) => result,
            other => panic!("{other:?}"),
        }
    }

    fn execute_with_auto_checkpoint(
        &mut self,
        engine: &mut Engine,
        command: Command,
        threshold: u64,
    ) -> Result<ExecutionOutcome, EngineError> {
        let step = engine.execute_with_auto_checkpoint(command, threshold);
        match self.finish(engine, step) {
            Completion::ExecutedWithCheckpoint(result) => result,
            other => panic!("{other:?}"),
        }
    }

    fn checkpoint(&mut self, engine: &mut Engine) -> Result<(), EngineError> {
        let step = engine.checkpoint();
        match self.finish(engine, step) {
            Completion::Checkpointed(result) => result,
            other => panic!("{other:?}"),
        }
    }

    fn clear(&mut self, engine: &mut Engine) -> Result<usize, EngineError> {
        let step = engine.clear();
        match self.finish(engine, step) {
            Completion::Cleared(result) => result,
            other => panic!("{other:?}"),
        }
    }
}

fn set(key: &str, value: &str) -> Command {
    Command::SetValue {
        key: key.into(),
        value: value.into(),
    }
}

fn get(key: &str) -> Command {
    Command::Get { key: key.into() }
}

fn keys(disk: &Disk) -> Vec<String> {
    let mut engine = disk.open().unwrap();
    match engine.execute(Command::Keys) {
        Step::Finished(Completion::Executed(Ok(Reply::Keys(keys)))) => keys,
        other => panic!("{other:?}"),
    }
}

fn full() -> PersistenceError {
    PersistenceError::io("append WAL", "wal.log".into(), "disk full".into())
}

#[test]
fn mutations_survive_engine_restart() {
    let mut disk = Disk::new();

    {
        let mut engine = disk.open().unwrap();
        disk.execute(
            &mut engine,
            Command::SetValue {
                key: "course".into(),
                value: "Rust".into(),
            },
        )
        .unwrap();
        disk.execute(
            &mut engine,
            Command::Update {
                key: "course".into(),
                value: "Advanced Rust".into(),
            },
        )
        .unwrap();
    }

    let mut recovered = disk.open().unwrap();
    assert_eq!(
        disk.execute(
            &mut recovered,
            Command::Get {
                key: "course".into()
            }
        )
        .unwrap(),
        Reply::Value("Advanced Rust".into())
    );
}

#[test]
fn rejected_mutations_are_not_written_to_the_wal() {
    let mut disk = Disk::new();
    let mut engine = disk.open().unwrap();
    let log = disk.log.clone();

    assert!(matches!(
        disk.execute(
            &mut engine,
            Command::Update {
                key: "missing".into(),
                value: "value".into(),
            }
        ),
        Err(EngineError::Domain(DomainError::NotFound { .. }))
    ));
    drop(engine);
    assert_eq!(disk.log, log);

    let recovered = disk.open().unwrap();
    assert_eq!(recovered.status().key_count, 0);
}

#[test]
fn a_mutation_that_recovery_would_refuse_is_not_logged() {
    let mut disk = Disk::new();
    let mut engine = disk.open().unwrap();
    disk.execute(&mut engine, set("k", "old")).unwrap();
    let log = disk.log.clone();
    let too_large = EngineError::Persistence(PersistenceError::Corrupt {
        path: "wal.log".into(),
        line: 0,
        offset: 0,
        reason: "record exceeds the maximum size".into(),
    });

    let value = "x".repeat(600_000);
    assert_eq!(
        disk.execute(&mut engine, set("k", &value)),
        Err(too_large.clone())
    );
    let update = Command::Update {
        key: "k".into(),
        value: value.clone(),
    };
    assert_eq!(
        disk.execute_with_auto_checkpoint(&mut engine, update, 1),
        Err(too_large)
    );
    assert_eq!(disk.log, log);
    assert!(disk.snapshot.is_none());
    assert_eq!(engine.writes_since_checkpoint(), 1);
    assert_eq!(
        disk.execute(&mut engine, get("k")),
        Ok(Reply::Value("old".into()))
    );

    disk.execute(&mut engine, set("k", "new")).unwrap();
    let mut recovered = disk.open().unwrap();
    assert_eq!(recovered.status().key_count, 1);
    assert_eq!(
        disk.execute(&mut recovered, get("k")),
        Ok(Reply::Value("new".into()))
    );
}

#[test]
fn a_large_value_survives_a_restart() {
    let mut disk = Disk::new();
    let mut engine = disk.open().unwrap();
    let value = "x".repeat(500_000);
    assert_eq!(
        disk.execute(&mut engine, set("k", &value)),
        Ok(Reply::SetValue(SetOutcome::Created))
    );
    let mut recovered = disk.open().unwrap();
    assert_eq!(
        disk.execute(&mut recovered, get("k")),
        Ok(Reply::Value(value))
    );
}

#[test]
fn a_restart_keeps_the_number_of_writes_since_the_checkpoint() {
    let mut disk = Disk::new();
    let mut engine = disk.open().unwrap();
    for (number, key) in ["a", "b", "c"].into_iter().enumerate() {
        disk.execute(&mut engine, set(key, "1")).unwrap();
        assert_eq!(engine.writes_since_checkpoint(), number as u64 + 1);
        let again = disk.open().unwrap();
        assert_eq!(again.writes_since_checkpoint(), number as u64 + 1);
    }
    disk.checkpoint(&mut engine).unwrap();
    assert_eq!(disk.open().unwrap().writes_since_checkpoint(), 0);
    disk.execute(&mut engine, set("d", "1")).unwrap();
    assert_eq!(engine.writes_since_checkpoint(), 1);
    assert_eq!(disk.open().unwrap().writes_since_checkpoint(), 1);
}

#[test]
fn checkpoint_creates_a_snapshot_and_compacts_the_wal() {
    let mut disk = Disk::new();
    let mut engine = disk.open().unwrap();
    disk.execute(
        &mut engine,
        Command::SetValue {
            key: "course".into(),
            value: "Rust".into(),
        },
    )
    .unwrap();
    disk.checkpoint(&mut engine).unwrap();

    assert!(disk.snapshot.is_some());
    let wal_text = String::from_utf8(disk.log.clone()).unwrap();
    assert_eq!(wal_text, "RUST_KV_WAL\t2\t1\n");

    let mut recovered = disk.open().unwrap();
    assert_eq!(
        disk.execute(
            &mut recovered,
            Command::Get {
                key: "course".into()
            }
        )
        .unwrap(),
        Reply::Value("Rust".into())
    );
}

#[test]
fn recovery_combines_snapshot_and_later_wal_records() {
    let mut disk = Disk::new();
    {
        let mut engine = disk.open().unwrap();
        disk.execute(
            &mut engine,
            Command::SetValue {
                key: "course".into(),
                value: "Rust".into(),
            },
        )
        .unwrap();
        disk.checkpoint(&mut engine).unwrap();
        disk.execute(
            &mut engine,
            Command::SetValue {
                key: "teacher".into(),
                value: "李老师".into(),
            },
        )
        .unwrap();
    }

    let mut recovered = disk.open().unwrap();
    assert_eq!(recovered.status().key_count, 2);
    assert_eq!(
        disk.execute(
            &mut recovered,
            Command::Get {
                key: "teacher".into()
            }
        )
        .unwrap(),
        Reply::Value("李老师".into())
    );
}

#[test]
fn automatic_checkpoint_compacts_wal_at_the_write_threshold() {
    let mut disk = Disk::new();
    let mut engine = disk.open().unwrap();

    let first = disk
        .execute_with_auto_checkpoint(
            &mut engine,
            Command::SetValue {
                key: "course".into(),
                value: "Rust".into(),
            },
            2,
        )
        .unwrap();
    assert!(first.auto_checkpoint.is_none());
    assert_eq!(engine.writes_since_checkpoint(), 1);

    let second = disk
        .execute_with_auto_checkpoint(
            &mut engine,
            Command::SetValue {
                key: "teacher".into(),
                value: "李老师".into(),
            },
            2,
        )
        .unwrap();
    assert!(matches!(second.auto_checkpoint, Some(Ok(()))));
    assert_eq!(engine.writes_since_checkpoint(), 0);
    assert!(disk.snapshot.is_some());
    assert_eq!(
        String::from_utf8(disk.log.clone()).unwrap(),
        "RUST_KV_WAL\t2\t2\n"
    );

    let recovered = disk.open().unwrap();
    assert_eq!(recovered.status().key_count, 2);
    assert_eq!(recovered.writes_since_checkpoint(), 0);
}

#[test]
fn recovered_wal_records_count_towards_the_next_checkpoint() {
    let mut disk = Disk::new();
    {
        let mut engine = disk.open().unwrap();
        disk.execute(
            &mut engine,
            Command::SetValue {
                key: "course".into(),
                value: "Rust".into(),
            },
        )
        .unwrap();
        disk.execute(
            &mut engine,
            Command::SetValue {
                key: "teacher".into(),
                value: "李老师".into(),
            },
        )
        .unwrap();
    }

    let mut recovered = disk.open().unwrap();
    assert_eq!(recovered.writes_since_checkpoint(), 2);
    let outcome = disk
        .execute_with_auto_checkpoint(&mut recovered, Command::Status, 2)
        .unwrap();
    assert!(matches!(outcome.auto_checkpoint, Some(Ok(()))));
    assert_eq!(recovered.writes_since_checkpoint(), 0);
}

#[test]
fn clear_empties_data_and_persists_an_empty_state() {
    let mut disk = Disk::new();
    {
        let mut engine = disk.open().unwrap();
        disk.execute(
            &mut engine,
            Command::SetValue {
                key: "course".into(),
                value: "Rust".into(),
            },
        )
        .unwrap();
        disk.execute(
            &mut engine,
            Command::SetValue {
                key: "teacher".into(),
                value: "李老师".into(),
            },
        )
        .unwrap();

        let cleared = disk.clear(&mut engine).unwrap();
        assert_eq!(cleared, 2);
        assert_eq!(engine.status().key_count, 0);
    }

    let mut recovered = disk.open().unwrap();
    assert_eq!(recovered.status().key_count, 0);
    disk.execute(
        &mut recovered,
        Command::SetValue {
            key: "fresh".into(),
            value: "value".into(),
        },
    )
    .unwrap();
    assert_eq!(recovered.status().key_count, 1);
}

#[test]
fn a_mutation_is_logged_before_it_is_applied() {
    let disk = Disk::new();
    let mut engine = disk.open().unwrap();
    let step = engine.execute(set("a", "1"));
    let Step::Perform(DiskAction::AppendLog { record }, pending) = step else {
        panic!("expected a record");
    };
    assert!(record.starts_with("1\tS\t61\t31\t"));
    assert_eq!(engine.status().key_count, 0);
    assert_eq!(
        engine.resume(pending, DiskEvent::Done),
        Step::Finished(Completion::Executed(Ok(Reply::SetValue(
            SetOutcome::Created
        ))))
    );
    assert_eq!(engine.status().key_count, 1);
    assert_eq!(engine.writes_since_checkpoint(), 1);
}

#[test]
fn a_failed_append_changes_nothing_and_ends_all_mutations() {
    let mut disk = Disk::new();
    let mut engine = disk.open().unwrap();
    disk.execute(&mut engine, set("a", "1")).unwrap();
    let Step::Perform(_, pending) = engine.execute(set("b", "2")) else {
        panic!("expected a record");
    };
    assert_eq!(
        engine.resume(pending, DiskEvent::Failed(full())),
        Step::Finished(Completion::Executed(Err(EngineError::Persistence(full()))))
    );
    assert_eq!(engine.status().key_count, 1);
    assert_eq!(
        disk.execute(&mut engine, set("b", "2")),
        Err(EngineError::Persistence(PersistenceError::Unavailable {
            path: "wal.log".into()
        }))
    );
    assert_eq!(
        disk.execute(&mut engine, get("a")),
        Ok(Reply::Value("1".into()))
    );
    disk.checkpoint(&mut engine).unwrap();
    assert!(disk.execute(&mut engine, set("b", "2")).is_err());
}

#[test]
fn a_failed_automatic_checkpoint_keeps_the_reply() {
    let disk = Disk::new();
    let mut engine = disk.open().unwrap();
    let Step::Perform(_, pending) = engine.execute_with_auto_checkpoint(set("a", "1"), 1) else {
        panic!("expected a record");
    };
    let Step::Perform(DiskAction::ReplaceSnapshot { snapshot, .. }, pending) =
        engine.resume(pending, DiskEvent::Done)
    else {
        panic!("expected a snapshot");
    };
    assert_eq!(snapshot.last_seq, 1);
    assert_eq!(
        engine.resume(pending, DiskEvent::Failed(full())),
        Step::Finished(Completion::ExecutedWithCheckpoint(Ok(ExecutionOutcome {
            reply: Reply::SetValue(SetOutcome::Created),
            auto_checkpoint: Some(Err(EngineError::Persistence(full()))),
        })))
    );
    assert_eq!(engine.status().key_count, 1);
    assert_eq!(engine.writes_since_checkpoint(), 1);
}

#[test]
fn a_failed_compaction_changes_nothing() {
    let mut disk = Disk::new();
    let mut engine = disk.open().unwrap();
    disk.execute(&mut engine, set("a", "1")).unwrap();
    let Step::Perform(action, pending) = engine.checkpoint() else {
        panic!("expected a snapshot");
    };
    disk.perform(action);
    let Step::Perform(action, pending) = engine.resume(pending, DiskEvent::Done) else {
        panic!("expected a log");
    };
    assert_eq!(
        action,
        DiskAction::ReplaceLog {
            header: "RUST_KV_WAL\t2\t1\n".into()
        }
    );
    assert_eq!(
        engine.resume(pending, DiskEvent::Failed(full())),
        Step::Finished(Completion::Checkpointed(Err(EngineError::Persistence(
            full()
        ))))
    );
    assert_eq!(engine.writes_since_checkpoint(), 1);
    disk.execute(&mut engine, set("b", "2")).unwrap();
    assert_eq!(keys(&disk), vec!["a", "b"]);
    disk.checkpoint(&mut engine).unwrap();
    assert_eq!(engine.writes_since_checkpoint(), 0);
    assert_eq!(keys(&disk), vec!["a", "b"]);
}

#[test]
fn stopping_between_snapshot_and_compaction_loses_nothing() {
    let mut disk = Disk::new();
    let mut engine = disk.open().unwrap();
    disk.execute(&mut engine, set("a", "1")).unwrap();
    disk.execute(&mut engine, set("b", "2")).unwrap();
    disk.execute(&mut engine, Command::Delete { key: "a".into() })
        .unwrap();
    let Step::Perform(action, _) = engine.checkpoint() else {
        panic!("expected a snapshot");
    };
    disk.perform(action);
    assert_eq!(keys(&disk), vec!["b"]);
    let mut restarted = disk.open().unwrap();
    assert_eq!(restarted.writes_since_checkpoint(), 0);
    disk.execute(&mut restarted, set("c", "3")).unwrap();
    assert_eq!(keys(&disk), vec!["b", "c"]);
}

#[test]
fn sequence_numbers_go_on_after_a_clear() {
    let mut disk = Disk::new();
    let mut engine = disk.open().unwrap();
    disk.execute(&mut engine, set("a", "1")).unwrap();
    let Step::Perform(action, pending) = engine.clear() else {
        panic!("expected a snapshot");
    };
    assert_eq!(
        pending,
        Pending::SaveSnapshot {
            purpose: Purpose::Clear { cleared: 1 }
        }
    );
    disk.perform(action);
    assert_eq!(keys(&disk), Vec::<String>::new());
    let step = engine.resume(pending, DiskEvent::Done);
    assert_eq!(
        disk.finish(&mut engine, step),
        Completion::Cleared(Ok(1))
    );
    assert_eq!(
        String::from_utf8(disk.log.clone()).unwrap(),
        "RUST_KV_WAL\t2\t1\n"
    );
    assert_eq!(keys(&disk), Vec::<String>::new());
}

#[test]
fn a_threshold_of_zero_makes_no_checkpoint() {
    let mut disk = Disk::new();
    let mut engine = disk.open().unwrap();
    for key in ["a", "b", "c"] {
        let outcome = disk
            .execute_with_auto_checkpoint(&mut engine, set(key, "1"), 0)
            .unwrap();
        assert!(outcome.auto_checkpoint.is_none());
    }
    assert_eq!(engine.writes_since_checkpoint(), 3);
    assert!(disk.snapshot.is_none());
}

#[test]
fn a_damaged_log_is_refused() {
    let mut disk = Disk::new();
    disk.log.extend_from_slice(b"1\tS");
    assert_eq!(
        disk.open().map(|_| ()),
        Err(EngineError::Persistence(PersistenceError::Corrupt {
            path: "wal.log".into(),
            line: 2,
            offset: 16,
            reason: "truncated final record".into()
        }))
    );
}

#[test]
fn mutations_are_told_from_reading_commands() {
    assert!(is_mutation(&set("a", "1")));
    assert!(is_mutation(&Command::Delete { key: "a".into() }));
    assert!(!is_mutation(&get("a")));
    assert!(!is_mutation(&Command::Keys));
    assert!(!is_mutation(&Command::Status));
}

#[test]
fn engine_errors_describe_themselves() {
    assert_eq!(
        EngineError::Domain(DomainError::EmptyKey).message(),
        "key must not be empty"
    );
    assert_eq!(
        EngineError::Persistence(full()).message(),
        "append WAL wal.log failed: disk full"
    );
}

#[test]
fn a_failed_automatic_checkpoint_is_tried_again() {
    let mut disk = Disk::new();
    let mut engine = disk.open().unwrap();
    let Step::Perform(action, pending) = engine.execute_with_auto_checkpoint(set("a", "1"), 1)
    else {
        panic!("expected a record");
    };
    disk.perform(action);
    let Step::Perform(_, pending) = engine.resume(pending, DiskEvent::Done) else {
        panic!("expected a snapshot");
    };
    engine.resume(pending, DiskEvent::Failed(full()));
    let outcome = disk
        .execute_with_auto_checkpoint(&mut engine, get("a"), 1)
        .unwrap();
    assert_eq!(outcome.auto_checkpoint, Some(Ok(())));
    assert_eq!(engine.writes_since_checkpoint(), 0);
    assert_eq!(keys(&disk), vec!["a"]);
}
