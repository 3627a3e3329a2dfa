use std::collections::BTreeMap;

use kv_storage_rust::domain::{Command, Reply, SetOutcome, Store};
use kv_storage_rust::engine::{
    action_script, event_of_script, Completion, DataPaths, DiskAction, DiskEvent, Engine, Step,
};
use kv_storage_rust::persistence::snapshot::{save_script, SnapshotPaths, MAX_SNAPSHOT_BYTES};
use kv_storage_rust::persistence::wal::{append_script, compact_script, create_script};
use kv_storage_rust::persistence::{
    DocumentRead, FileEvent, FileOperation, FileScript, FileStep, PersistenceError, SnapshotFile,
    SnapshotRepository,
};

#[derive(Debug, Clone, PartialEq)]
enum Content {
    Bytes(Vec<u8>),
    Document(SnapshotFile),
}

/// Files in memory, of which one operation can be made to fail.
#[derive(Clone)]
struct Files {
    contents: BTreeMap<String, Content>,
    document: Option<SnapshotFile>,
    document_len: u64,
    fails_at: Option<usize>,
    performed: usize,
}

impl Files {
    fn new() -> Self {
        Self {
            contents: BTreeMap::new(),
            document: None,
            document_len: 200,
            fails_at: None,
            performed: 0,
        }
    }

    fn perform(&mut self, step: &FileStep) -> FileEvent {
        let number = self.performed;
        self.performed += 1;
        if self.fails_at == Some(number) {
            return FileEvent::Failed("broken".into());
        }
        let path = step.path.clone();
        match &step.operation {
            FileOperation::CreateNewFile => {
                if self.contents.contains_key(&path) {
                    return FileEvent::NotNeeded;
                }
                self.contents.insert(path, Content::Bytes(Vec::new()));
            }
            FileOperation::CreateFile => {
                self.contents.insert(path, Content::Bytes(Vec::new()));
            }
            FileOperation::WriteText(text) => match self.contents.get_mut(&path) {
                Some(Content::Bytes(bytes)) => bytes.extend_from_slice(text.as_bytes()),
                other => panic!("{other:?}"),
            },
            FileOperation::SerializeSnapshot(snapshot) => self.document = Some(snapshot.clone()),
            FileOperation::WriteDocument => {
                let document = self.document.clone().unwrap();
                self.contents.insert(path, Content::Document(document));
            }
            FileOperation::CheckSnapshot { .. } => match &self.contents[&path] {
                Content::Document(snapshot) => {
                    return FileEvent::Document {
                        len: self.document_len,
                        document: DocumentRead::Snapshot(snapshot.clone()),
                    };
                }
                Content::Bytes(bytes) => {
                    return FileEvent::Document {
                        len: bytes.len() as u64,
                        document: DocumentRead::Invalid("no document".into()),
                    };
                }
            },
            FileOperation::FindFile => {
                if !self.contents.contains_key(&path) {
                    return FileEvent::NotNeeded;
                }
            }
            FileOperation::CopyFrom(from) => {
                let content = self.contents[from].clone();
                self.contents.insert(path, content);
            }
            FileOperation::RenameFrom(from) => {
                let content = self.contents.remove(from).unwrap();
                self.contents.insert(path, content);
            }
            _ => {}
        }
        FileEvent::Done
    }

    fn run(&mut self, script: &mut FileScript) -> Result<(), PersistenceError> {
        while let Some(step) = script.step() {
            let event = self.perform(step);
            script.resume(event)?;
        }
        Ok(())
    }
}

fn paths() -> SnapshotPaths {
    SnapshotPaths {
        parent: Some("data".into()),
        current: "data/snapshot.json".into(),
        temporary: "data/snapshot.json.tmp".into(),
        backup: "data/snapshot.bak".into(),
    }
}

fn snapshot(last_seq: u64) -> (SnapshotFile, u64) {
    SnapshotRepository::new("data/snapshot.json".into()).save(&Store::new(), last_seq)
}

fn io(action: &'static str, path: &str) -> PersistenceError {
    PersistenceError::io(action, path.into(), "broken".into())
}

#[test]
fn a_snapshot_is_put_in_place_and_the_old_one_is_kept() {
    let mut files = Files::new();
    let (first, hash) = snapshot(1);
    files
        .run(&mut save_script(&paths(), first.clone(), hash))
        .unwrap();
    assert_eq!(
        files.contents,
        BTreeMap::from([(
            "data/snapshot.json".to_string(),
            Content::Document(first.clone())
        )])
    );
    let (second, hash) = snapshot(2);
    files
        .run(&mut save_script(&paths(), second.clone(), hash))
        .unwrap();
    assert_eq!(
        files.contents,
        BTreeMap::from([
            ("data/snapshot.bak".to_string(), Content::Document(first)),
            ("data/snapshot.json".to_string(), Content::Document(second)),
        ])
    );
}

#[test]
fn a_failed_step_of_a_snapshot_leaves_the_old_one_in_place() {
    let errors = [
        io("create snapshot directory", "data"),
        PersistenceError::Corrupt {
            path: "data/snapshot.json".into(),
            line: 0,
            offset: 0,
            reason: "serialize snapshot: broken".into(),
        },
        io("create temporary snapshot", "data/snapshot.json.tmp"),
        io("write temporary snapshot", "data/snapshot.json.tmp"),
        io("flush temporary snapshot", "data/snapshot.json.tmp"),
        io("sync temporary snapshot", "data/snapshot.json.tmp"),
        io("verify temporary snapshot", "data/snapshot.json.tmp"),
        io("find snapshot", "data/snapshot.json"),
        io("backup snapshot", "data/snapshot.bak"),
        io("sync snapshot backup", "data/snapshot.bak"),
        io("replace snapshot", "data/snapshot.json"),
    ];
    let (old, _) = snapshot(1);
    let (new, hash) = snapshot(2);
    for (number, error) in errors.into_iter().enumerate() {
        let mut files = Files::new();
        files
            .contents
            .insert("data/snapshot.json".into(), Content::Document(old.clone()));
        files.fails_at = Some(number);
        let mut script = save_script(&paths(), new.clone(), hash);
        let result = files.run(&mut script);
        assert_eq!(result, Err(error.clone()));
        assert_eq!(
            files.contents["data/snapshot.json"],
            Content::Document(old.clone())
        );
        assert_eq!(
            event_of_script(result),
            DiskEvent::Failed(error)
        );
    }
}

#[test]
fn a_snapshot_that_reads_back_differently_is_not_put_in_place() {
    let (new, hash) = snapshot(2);
    let (other, _) = snapshot(3);
    for event in [
        FileEvent::Document {
            len: 200,
            document: DocumentRead::Snapshot(other),
        },
        FileEvent::Done,
        FileEvent::NotNeeded,
    ] {
        let mut script = save_script(&paths(), new.clone(), hash);
        for _ in 0..6 {
            script.resume(FileEvent::Done).unwrap();
        }
        assert!(matches!(
            script.step().unwrap().operation,
            FileOperation::CheckSnapshot { .. }
        ));
        assert_eq!(
            script.resume(event),
            Err(PersistenceError::Corrupt {
                path: "data/snapshot.json.tmp".into(),
                line: 0,
                offset: 0,
                reason: "temporary snapshot verification failed".into(),
            })
        );
    }
    let mut script = save_script(&paths(), new, hash);
    for _ in 0..6 {
        script.resume(FileEvent::Done).unwrap();
    }
    assert_eq!(
        script.resume(FileEvent::Document {
            len: 200,
            document: DocumentRead::Invalid("eof".into()),
        }),
        Err(PersistenceError::Corrupt {
            path: "data/snapshot.json.tmp".into(),
            line: 0,
            offset: 0,
            reason: "temporary snapshot JSON is invalid: eof".into(),
        })
    );
}

#[test]
fn a_snapshot_that_no_start_would_accept_is_not_put_in_place() {
    let (old, _) = snapshot(1);
    let (new, hash) = snapshot(2);
    let mut files = Files::new();
    files
        .contents
        .insert("data/snapshot.json".into(), Content::Document(old.clone()));
    files.document_len = MAX_SNAPSHOT_BYTES + 1;
    let error = PersistenceError::Corrupt {
        path: "data/snapshot.json.tmp".into(),
        line: 0,
        offset: 0,
        reason: "snapshot exceeds the maximum size".into(),
    };
    let mut script = save_script(&paths(), new.clone(), hash);
    let result = files.run(&mut script);
    assert_eq!(result, Err(error.clone()));
    assert_eq!(event_of_script(result), DiskEvent::Failed(error));
    assert_eq!(files.contents["data/snapshot.json"], Content::Document(old));
    assert!(!files.contents.contains_key("data/snapshot.bak"));

    files.document_len = MAX_SNAPSHOT_BYTES;
    files
        .run(&mut save_script(&paths(), new.clone(), hash))
        .unwrap();
    assert_eq!(files.contents["data/snapshot.json"], Content::Document(new));
}

#[test]
fn a_script_performs_the_steps_of_its_action() {
    let operations = |files: &mut Files| {
        let (document, hash) = snapshot(2);
        let mut script = save_script(&paths(), document, hash);
        let mut names = Vec::new();
        while let Some(step) = script.step() {
            names.push(step.action);
            let event = files.perform(step);
            script.resume(event).unwrap();
        }
        names
    };
    let mut files = Files::new();
    let before = [
        "create snapshot directory",
        "serialize snapshot",
        "create temporary snapshot",
        "write temporary snapshot",
        "flush temporary snapshot",
        "sync temporary snapshot",
        "verify temporary snapshot",
        "find snapshot",
    ];
    let mut first = before.to_vec();
    first.push("replace snapshot");
    assert_eq!(operations(&mut files), first);
    let mut second = before.to_vec();
    second.extend(["backup snapshot", "sync snapshot backup", "replace snapshot"]);
    assert_eq!(operations(&mut files), second);
}

#[test]
fn a_log_is_created_only_where_there_is_none() {
    let mut files = Files::new();
    let path = "data/wal.log".to_string();
    files
        .run(&mut create_script(&Some("data".into()), &path, 4))
        .unwrap();
    let header = Content::Bytes(b"RUST_KV_WAL\t2\t4\n".to_vec());
    assert_eq!(files.contents[&path], header);
    files
        .run(&mut create_script(&Some("data".into()), &path, 9))
        .unwrap();
    assert_eq!(files.contents[&path], header);
    let errors = [
        io("create data directory", "data"),
        io("create WAL", "data/wal.log"),
        io("write WAL header", "data/wal.log"),
        io("sync WAL header", "data/wal.log"),
    ];
    for (number, error) in errors.into_iter().enumerate() {
        let mut files = Files::new();
        files.fails_at = Some(number);
        let mut script = create_script(&Some("data".into()), &path, 0);
        assert_eq!(files.run(&mut script), Err(error));
    }
}

#[test]
fn records_are_appended_and_synchronised() {
    let path = "wal.log".to_string();
    let mut files = Files::new();
    files
        .contents
        .insert(path.clone(), Content::Bytes(b"head\n".to_vec()));
    let mut script = append_script(&path, "record\n".into());
    assert_eq!(files.run(&mut script), Ok(()));
    assert_eq!(
        files.contents[&path],
        Content::Bytes(b"head\nrecord\n".to_vec())
    );
    assert_eq!(event_of_script(Ok(())), DiskEvent::Done);
    let errors = [
        io("append WAL", "wal.log"),
        io("flush WAL", "wal.log"),
        io("sync WAL", "wal.log"),
    ];
    for (number, error) in errors.into_iter().enumerate() {
        let mut failing = files.clone();
        failing.performed = 0;
        failing.fails_at = Some(number);
        let mut script = append_script(&path, "record\n".into());
        let result = failing.run(&mut script);
        assert_eq!(result, Err(error.clone()));
        assert_eq!(event_of_script(result), DiskEvent::Failed(error));
    }
}

#[test]
fn a_compacted_log_that_cannot_be_put_in_place_leaves_the_old_one() {
    let path = "wal.log".to_string();
    let temporary = "wal.log.tmp".to_string();
    let old = Content::Bytes(b"old\n".to_vec());
    let errors = [
        io("create temporary WAL", "wal.log.tmp"),
        io("write temporary WAL", "wal.log.tmp"),
        io("sync temporary WAL", "wal.log.tmp"),
        io("reopen compacted WAL", "wal.log.tmp"),
        io("replace WAL", "wal.log"),
    ];
    for (number, error) in errors.into_iter().enumerate() {
        let mut files = Files::new();
        files.contents.insert(path.clone(), old.clone());
        files.fails_at = Some(number);
        let mut script = compact_script(&path, &temporary, "new\n".into());
        let result = files.run(&mut script);
        assert_eq!(result, Err(error.clone()));
        assert_eq!(files.contents[&path], old);
        assert_eq!(event_of_script(result), DiskEvent::Failed(error));
    }
    let mut files = Files::new();
    files.contents.insert(path.clone(), old);
    let mut script = compact_script(&path, &temporary, "new\n".into());
    assert_eq!(files.run(&mut script), Ok(()));
    assert_eq!(script.step(), None);
    assert_eq!(files.contents[&path], Content::Bytes(b"new\n".to_vec()));
    assert!(!files.contents.contains_key(&temporary));
}

/// An engine and its files, of which one operation of the next call can be made to fail.
struct Directory {
    files: Files,
    engine: Engine,
}

fn data_paths() -> DataPaths {
    DataPaths {
        log: "data/wal.log".into(),
        log_temporary: "data/wal.log.tmp".into(),
        snapshot: paths(),
    }
}

fn open(files: &Files) -> Engine {
    let repository = SnapshotRepository::new("data/snapshot.json".into());
    let loaded = match files.contents.get("data/snapshot.json") {
        Some(Content::Document(document)) => Some(repository.load(Ok(document.clone())).unwrap()),
        _ => None,
    };
    let path = "data/wal.log".to_string();
    Engine::open(repository, loaded, path, &log_of(files)).unwrap()
}

fn log_of(files: &Files) -> Vec<u8> {
    match &files.contents["data/wal.log"] {
        Content::Bytes(bytes) => bytes.clone(),
        other => panic!("{other:?}"),
    }
}

fn entries(engine: &mut Engine) -> BTreeMap<String, String> {
    let Step::Finished(Completion::Executed(Ok(Reply::Keys(keys)))) =
        engine.execute(Command::Keys)
    else {
        panic!("expected keys");
    };
    keys.into_iter()
        .map(|key| match engine.execute(Command::Get { key: key.clone() }) {
            Step::Finished(Completion::Executed(Ok(Reply::Value(value)))) => (key, value),
            other => panic!("{other:?}"),
        })
        .collect()
}

impl Directory {
    fn new() -> Self {
        let mut files = Files::new();
        files
            .run(&mut create_script(
                &Some("data".into()),
                &"data/wal.log".to_string(),
                0,
            ))
            .unwrap();
        let engine = open(&files);
        Self { files, engine }
    }

    fn finish(&mut self, mut step: Step, fails_at: Option<usize>) -> Completion {
        self.files.performed = 0;
        self.files.fails_at = fails_at;
        loop {
            match step {
                Step::Finished(completion) => return completion,
                Step::Perform(action, pending) => {
                    let mut script = action_script(&data_paths(), action);
                    let result = self.files.run(&mut script);
                    step = self.engine.resume(pending, event_of_script(result));
                }
            }
        }
    }
}

fn set(key: &str, value: &str) -> Command {
    Command::SetValue {
        key: key.into(),
        value: value.into(),
    }
}

#[test]
fn a_failed_automatic_checkpoint_keeps_the_whole_log() {
    // Three steps log the record; then come the steps of the snapshot and those of the log.
    for fails_at in 3..19 {
        let mut data = Directory::new();
        let step = data.engine.execute_with_auto_checkpoint(set("a", "1"), 1);
        data.finish(step, None);
        let step = data.engine.execute_with_auto_checkpoint(set("b", "2"), 0);
        data.finish(step, None);
        let before = log_of(&data.files);

        let Step::Perform(DiskAction::AppendLog { record }, _) =
            data.engine.execute(set("c", "3"))
        else {
            panic!("expected a record");
        };
        let step = data.engine.execute_with_auto_checkpoint(set("c", "3"), 2);
        let completion = data.finish(step, Some(fails_at));
        let Completion::ExecutedWithCheckpoint(Ok(outcome)) = completion else {
            panic!("{completion:?}");
        };
        assert_eq!(outcome.reply, Reply::SetValue(SetOutcome::Created));
        assert!(matches!(outcome.auto_checkpoint, Some(Err(_))));
        assert_eq!(
            log_of(&data.files),
            [before, record.into_bytes()].concat()
        );
        assert_eq!(data.engine.writes_since_checkpoint(), 2);
        let held = entries(&mut data.engine);
        assert_eq!(held.len(), 3);
        assert_eq!(entries(&mut open(&data.files)), held);

        let step = data.engine.execute_with_auto_checkpoint(Command::Keys, 2);
        let completion = data.finish(step, None);
        let Completion::ExecutedWithCheckpoint(Ok(outcome)) = completion else {
            panic!("{completion:?}");
        };
        assert_eq!(outcome.auto_checkpoint, Some(Ok(())));
        assert_eq!(log_of(&data.files), b"RUST_KV_WAL\t2\t3\n");
        assert_eq!(data.engine.writes_since_checkpoint(), 0);
        assert_eq!(entries(&mut open(&data.files)), held);
    }
}

#[test]
fn a_restart_finds_all_data_after_any_sequence_of_calls() {
    let mut data = Directory::new();
    let mut expected = BTreeMap::new();
    for number in 0..60_usize {
        let key = format!("k{}", number % 7);
        match number % 5 {
            0 | 1 => {
                let value = number.to_string();
                let step = data
                    .engine
                    .execute_with_auto_checkpoint(set(&key, &value), 3);
                data.finish(step, Some(3 + number % 17));
                expected.insert(key, value);
            }
            2 => {
                let step = data.engine.execute(Command::Delete { key: key.clone() });
                data.finish(step, None);
                expected.remove(&key);
            }
            3 => {
                let step = data.engine.checkpoint();
                data.finish(step, Some(number % 17));
            }
            _ if number % 4 == 0 => {
                let step = data.engine.clear();
                data.finish(step, None);
                expected.clear();
            }
            _ => data.engine = open(&data.files),
        }
        assert_eq!(entries(&mut data.engine), expected);
        assert_eq!(entries(&mut open(&data.files)), expected);
    }
}

#[test]
fn actions_have_their_scripts() {
    let paths = DataPaths {
        log: "wal.log".into(),
        log_temporary: "wal.log.tmp".into(),
        snapshot: paths(),
    };
    let mut files = Files::new();
    files
        .contents
        .insert("wal.log".into(), Content::Bytes(Vec::new()));
    let (document, checksum) = snapshot(7);
    for action in [
        DiskAction::AppendLog {
            record: "r\n".into(),
        },
        DiskAction::ReplaceSnapshot {
            snapshot: document.clone(),
            checksum,
        },
    ] {
        files.run(&mut action_script(&paths, action)).unwrap();
    }
    assert_eq!(files.contents["wal.log"], Content::Bytes(b"r\n".to_vec()));
    assert_eq!(
        files.contents["data/snapshot.json"],
        Content::Document(document.clone())
    );
    let action = DiskAction::ReplaceLog {
        header: "h\n".into(),
    };
    files.run(&mut action_script(&paths, action)).unwrap();
    assert_eq!(files.contents["wal.log"], Content::Bytes(b"h\n".to_vec()));
    assert_eq!(
        files.contents["data/snapshot.json"],
        Content::Document(document)
    );
}

#[test]
fn a_finished_script_stays_finished() {
    let mut script = FileScript::new(Vec::new());
    assert_eq!(script.step(), None);
    assert_eq!(script.resume(FileEvent::Failed("late".into())), Ok(()));
}
