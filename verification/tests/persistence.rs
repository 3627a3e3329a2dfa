use kv_storage_rust::domain::{Command, Reply, Store};
use kv_storage_rust::persistence::format::{
    checksum64, decode_header, decode_record, decode_utf8_hex, encode_header, encode_hex,
    encode_record, FormatError, MAX_RECORD_BYTES,
};
use kv_storage_rust::persistence::snapshot::{
    calculate_checksum, parse_checksum, validate_temporary_snapshot, MAX_SNAPSHOT_BYTES,
};
use kv_storage_rust::persistence::wal::recover_store;
use kv_storage_rust::persistence::{
    PersistenceError, SnapshotFile, SnapshotMetadata, SnapshotRepository, Wal,
};
use serde_json::{Number, Value};

const LEGACY_WAL_HEADER: &str = "RUST_KV_WAL\t1";

fn set(key: &str, value: &str) -> Command {
    Command::SetValue {
        key: key.into(),
        value: value.into(),
    }
}

/// Appends a command to a log that is kept in memory.
fn append(wal: &mut Wal, log: &mut Vec<u8>, command: &Command) -> u64 {
    let record = wal.append(command).unwrap();
    log.extend_from_slice(record.as_bytes());
    wal.appended().unwrap()
}

fn to_json(snapshot: &SnapshotFile) -> Vec<u8> {
    let mut entries = serde_json::Map::new();
    for (key, value) in &snapshot.entries {
        entries.insert(key.clone(), Value::String(value.clone()));
    }
    let mut document = serde_json::Map::new();
    document.insert("magic".into(), Value::String(snapshot.magic.clone()));
    document.insert(
        "version".into(),
        Value::Number(Number::from(snapshot.version)),
    );
    document.insert(
        "last_seq".into(),
        Value::Number(Number::from(snapshot.last_seq)),
    );
    document.insert("entries".into(), Value::Object(entries));
    document.insert("checksum".into(), Value::String(snapshot.checksum.clone()));
    serde_json::to_vec_pretty(&Value::Object(document)).unwrap()
}

fn from_json(bytes: &[u8]) -> Result<SnapshotFile, String> {
    let document: Value = serde_json::from_slice(bytes).map_err(|error| error.to_string())?;
    let entries = document["entries"].as_object().ok_or("entries")?;
    Ok(SnapshotFile {
        magic: document["magic"].as_str().ok_or("magic")?.to_string(),
        version: document["version"].as_u64().ok_or("version")? as u16,
        last_seq: document["last_seq"].as_u64().ok_or("last_seq")?,
        entries: entries
            .iter()
            .map(|(key, value)| (key.clone(), value.as_str().unwrap().to_string()))
            .collect(),
        checksum: document["checksum"].as_str().ok_or("checksum")?.to_string(),
    })
}

// The text format

#[test]
fn record_round_trip_preserves_unicode_and_whitespace() {
    let command = Command::SetValue {
        key: "课程\t名称".into(),
        value: "Rust\n程序设计".into(),
    };
    let encoded = encode_record(7, &command).unwrap();
    let decoded = decode_record(encoded.trim_end_matches('\n')).unwrap();

    assert_eq!(decoded, (7, command));
}

#[test]
fn wal_header_round_trip_preserves_the_base_sequence() {
    let header = encode_header(42);
    assert_eq!(decode_header(header.trim_end_matches('\n')).unwrap(), 42);
    assert_eq!(decode_header(LEGACY_WAL_HEADER).unwrap(), 0);
}

#[test]
fn checksum_changes_are_rejected() {
    let command = Command::Delete {
        key: "course".into(),
    };
    let mut encoded = encode_record(1, &command).unwrap();
    let checksum_index = encoded.len() - 2;
    let replacement = if &encoded[checksum_index..checksum_index + 1] == "0" {
        "1"
    } else {
        "0"
    };
    encoded.replace_range(checksum_index..checksum_index + 1, replacement);

    assert!(matches!(
        decode_record(encoded.trim_end_matches('\n')),
        Err(FormatError::Invalid(_))
    ));
}

#[test]
fn records_have_a_fixed_text() {
    assert_eq!(encode_header(0), "RUST_KV_WAL\t2\t0\n");
    assert_eq!(
        encode_header(u64::MAX),
        "RUST_KV_WAL\t2\t18446744073709551615\n"
    );
    let payload = "1\tS\t6B\tC3A9";
    let expected = format!("{payload}\t{:016X}\n", checksum64(payload.as_bytes()));
    assert_eq!(encode_record(1, &set("k", "é")).unwrap(), expected);
    let delete = Command::Delete { key: "k".into() };
    assert!(encode_record(12, &delete).unwrap().starts_with("12\tD\t6B\t\t"));
    let update = Command::Update {
        key: "k".into(),
        value: "v".into(),
    };
    assert!(encode_record(3, &update).unwrap().starts_with("3\tU\t6B\t76\t"));
}

#[test]
fn the_checksum_has_known_values() {
    assert_eq!(checksum64(b""), 0xcbf29ce484222325);
    assert_eq!(checksum64(b"a"), 0xaf63dc4c8601ec8c);
    assert_eq!(checksum64(b"foobar"), 0x85944171f73967e8);
}

#[test]
fn one_changed_byte_changes_the_checksum() {
    let bytes = b"1\tS\t6B\t76".to_vec();
    for at in 0..bytes.len() {
        for byte in 0..=255u8 {
            let mut changed = bytes.clone();
            changed[at] = byte;
            assert_eq!(
                checksum64(&changed) == checksum64(&bytes),
                byte == bytes[at]
            );
        }
    }
}

#[test]
fn a_record_with_one_changed_byte_is_refused() {
    let record = encode_record(5, &set("key", "value")).unwrap();
    let line = record.trim_end_matches('\n');
    for at in 0..line.len() - 17 {
        let mut bytes = line.as_bytes().to_vec();
        bytes[at] = if bytes[at] == b'7' { b'6' } else { b'7' };
        let changed = String::from_utf8(bytes).unwrap();
        assert!(decode_record(&changed).is_err());
    }
}

#[test]
fn reading_commands_are_not_logged() {
    for command in [
        Command::Get { key: "k".into() },
        Command::Keys,
        Command::Status,
    ] {
        assert_eq!(
            encode_record(1, &command),
            Err(FormatError::UnsupportedCommand)
        );
    }
}

fn record_with(payload: &str) -> String {
    format!("{payload}\t{:016X}", checksum64(payload.as_bytes()))
}

#[test]
fn every_damage_of_a_record_has_its_reason() {
    let reasons = [
        ("1\tS\t00".to_string(), "expected 5 fields, found 3"),
        (record_with("x\tS\t6B\t76"), "invalid sequence number"),
        (
            record_with("0\tS\t6B\t76"),
            "sequence number must be greater than zero",
        ),
        ("1\tS\t6B\t76\tzz".to_string(), "invalid checksum"),
        (
            record_with("1\tS\t6\t76"),
            "key has an odd number of hexadecimal digits",
        ),
        (
            record_with("1\tS\t6G\t76"),
            "key contains invalid hexadecimal data",
        ),
        (record_with("1\tS\tFF\t76"), "key is not valid UTF-8"),
        (
            record_with("1\tS\t6B\t7"),
            "value has an odd number of hexadecimal digits",
        ),
        (record_with("1\tD\t6B\t76"), "DELETE record contains a value"),
        (record_with("1\tX\t6B\t76"), "unknown operation: X"),
    ];
    for (line, reason) in reasons {
        assert_eq!(
            decode_record(&line),
            Err(FormatError::Invalid(reason.into()))
        );
    }
    let wrong = format!("1\tS\t6B\t76\t{:016X}", 1);
    assert_eq!(
        decode_record(&wrong),
        Err(FormatError::Invalid(format!(
            "checksum mismatch: expected {:016X}, calculated {:016X}",
            1,
            checksum64(b"1\tS\t6B\t76")
        )))
    );
}

#[test]
fn records_are_read_as_numbers_are() {
    let payload = "+07\tS\t6b\t76";
    let line = format!("{payload}\t+{:x}", checksum64(payload.as_bytes()));
    assert_eq!(decode_record(&line), Ok((7, set("k", "v"))));
}

#[test]
fn headers_are_checked() {
    let missing = Err(FormatError::Invalid(
        "missing or unsupported WAL header".into(),
    ));
    assert_eq!(decode_header(""), missing);
    assert_eq!(decode_header("RUST_KV_WAL\t3\t0"), missing);
    assert_eq!(decode_header("RUST_KV_WAL\t2"), missing);
    assert_eq!(decode_header("RUST_KV_WAL\t2\t0\t0"), missing);
    assert_eq!(
        decode_header("RUST_KV_WAL\t2\t-1"),
        Err(FormatError::Invalid("invalid WAL base sequence".into()))
    );
}

#[test]
fn hexadecimal_round_trip() {
    let text = "\u{0}\tKey 值 \u{10FFFF}";
    assert_eq!(encode_hex(b"\x00\x0f\xff"), "000FFF");
    let field = encode_hex(text.as_bytes());
    assert_eq!(decode_utf8_hex(&field, "key"), Ok(text.to_string()));
    assert_eq!(
        decode_utf8_hex(&field.to_lowercase(), "key"),
        Ok(text.to_string())
    );
    assert_eq!(
        decode_utf8_hex("值a", "key"),
        Err(FormatError::Invalid(
            "key contains invalid hexadecimal data".into()
        ))
    );
    assert_eq!(
        decode_utf8_hex("é", "value"),
        Err(FormatError::Invalid(
            "value contains invalid hexadecimal data".into()
        ))
    );
}

// The log

#[test]
fn creates_a_new_wal_and_recovers_mutations() {
    let mut log = encode_header(0).into_bytes();
    let (mut wal, store) = Wal::open("wal.log".into(), &log).unwrap();
    assert_eq!(store.status().key_count, 0);

    append(
        &mut wal,
        &mut log,
        &Command::SetValue {
            key: "course".into(),
            value: "Rust".into(),
        },
    );
    append(
        &mut wal,
        &mut log,
        &Command::Update {
            key: "course".into(),
            value: "Advanced Rust".into(),
        },
    );

    let (_, mut recovered) = Wal::open("wal.log".into(), &log).unwrap();
    assert_eq!(
        recovered
            .execute(Command::Get {
                key: "course".into()
            })
            .unwrap(),
        Reply::Value("Advanced Rust".into())
    );
}

#[test]
fn compacted_wal_continues_after_the_snapshot_sequence() {
    let mut log = encode_header(0).into_bytes();
    let (mut wal, mut store) = Wal::open("wal.log".into(), &log).unwrap();
    let command = Command::SetValue {
        key: "course".into(),
        value: "Rust".into(),
    };
    append(&mut wal, &mut log, &command);
    store.execute(command).unwrap();
    let log = wal.compact().into_bytes();

    let (wal, recovered) = Wal::open_with_store("wal.log".into(), &log, store, 1).unwrap();
    assert_eq!(wal.last_seq(), 1);
    assert_eq!(recovered.get("course"), Ok("Rust"));
}

#[test]
fn rejects_a_truncated_final_record() {
    let mut log = encode_header(0).into_bytes();
    assert!(Wal::open("wal.log".into(), &log).is_ok());

    log.extend_from_slice(b"1\tS\t00");

    assert!(matches!(
        Wal::open("wal.log".into(), &log),
        Err(PersistenceError::Corrupt { .. })
    ));
}

#[test]
fn rejects_a_checksum_mismatch() {
    let mut record = encode_record(
        1,
        &Command::SetValue {
            key: "course".into(),
            value: "Rust".into(),
        },
    )
    .unwrap();
    let checksum_index = record.len() - 2;
    let replacement = if &record[checksum_index..checksum_index + 1] == "0" {
        "1"
    } else {
        "0"
    };
    record.replace_range(checksum_index..checksum_index + 1, replacement);

    let mut contents = encode_header(0).into_bytes();
    contents.extend_from_slice(record.as_bytes());

    assert!(matches!(
        Wal::open("wal.log".into(), &contents),
        Err(PersistenceError::Corrupt { .. })
    ));
}

#[test]
fn rejects_an_invalid_mutation_history() {
    let record = encode_record(
        1,
        &Command::Update {
            key: "missing".into(),
            value: "value".into(),
        },
    )
    .unwrap();

    let mut contents = encode_header(0).into_bytes();
    contents.extend_from_slice(record.as_bytes());

    assert!(matches!(
        Wal::open("wal.log".into(), &contents),
        Err(PersistenceError::Corrupt { .. })
    ));
}

fn damage(log: &[u8], snapshot_seq: u64) -> (usize, u64, String) {
    match recover_store("wal.log", log, Store::new(), snapshot_seq) {
        Err(PersistenceError::Corrupt {
            path,
            line,
            offset,
            reason,
        }) => {
            assert_eq!(path, "wal.log");
            (line, offset, reason)
        }
        other => panic!("{other:?}"),
    }
}

#[test]
fn every_damage_of_a_log_is_located() {
    assert_eq!(damage(b"", 0), (1, 0, "truncated WAL header".into()));
    assert_eq!(
        damage(b"RUST_KV_WAL\t2\t0", 0),
        (1, 0, "truncated WAL header".into())
    );
    assert_eq!(
        damage(b"\xff\n", 0),
        (1, 0, "WAL header is not valid UTF-8".into())
    );
    assert_eq!(
        damage(b"\n", 0),
        (1, 0, "missing or unsupported WAL header".into())
    );
    assert_eq!(
        damage(b"RUST_KV_WAL\t2\t5\n", 4),
        (
            1,
            0,
            "WAL starts after sequence 5, but snapshot only contains 4".into()
        )
    );
    assert_eq!(
        damage(encode_header(u64::MAX).as_bytes(), u64::MAX),
        (1, 0, "WAL base sequence overflow".into())
    );
    let header = encode_header(0);
    let start = header.len() as u64;
    let with = |rest: &[u8]| {
        let mut log = header.clone().into_bytes();
        log.extend_from_slice(rest);
        log
    };
    assert_eq!(
        damage(&with(b"\xff\n"), 0),
        (2, start, "record is not valid UTF-8".into())
    );
    assert_eq!(
        damage(&with(b"\n"), 0),
        (2, start, "expected 5 fields, found 1".into())
    );
    let first = encode_record(1, &set("a", "1")).unwrap();
    let third = encode_record(3, &set("b", "2")).unwrap();
    let gap = format!("{first}{third}");
    assert_eq!(
        damage(&with(gap.as_bytes()), 0),
        (
            3,
            start + first.len() as u64,
            "expected sequence 2, found 3".into()
        )
    );
    let missing = encode_record(2, &Command::Delete { key: "b".into() }).unwrap();
    let history = format!("{first}{missing}");
    assert_eq!(
        damage(&with(history.as_bytes()), 0),
        (
            3,
            start + first.len() as u64,
            "invalid mutation history: key not found: b".into()
        )
    );
    assert_eq!(
        damage(&with(first.as_bytes()), 2),
        (
            3,
            start + first.len() as u64,
            "WAL ends at sequence 1, before snapshot sequence 2".into()
        )
    );
    let mut large = vec![b'x'; MAX_RECORD_BYTES];
    assert_eq!(
        damage(&with(&large), 0),
        (2, start, "truncated final record".into())
    );
    large.push(b'\n');
    assert_eq!(
        damage(&with(&large), 0),
        (2, start, "record exceeds the maximum size".into())
    );
    let mut last = encode_header(u64::MAX - 1);
    let start = last.len() as u64;
    last.push_str(&encode_record(u64::MAX, &set("a", "1")).unwrap());
    assert_eq!(
        damage(last.as_bytes(), u64::MAX - 1),
        (2, start, "sequence number overflow".into())
    );
}

#[test]
fn records_that_the_snapshot_holds_are_not_applied_again() {
    let mut log = encode_header(0).into_bytes();
    let (mut wal, mut store) = Wal::open("wal.log".into(), &log).unwrap();
    for command in [
        set("a", "1"),
        Command::Delete { key: "a".into() },
        set("b", "2"),
    ] {
        append(&mut wal, &mut log, &command);
        store.execute(command).unwrap();
    }
    let entries = store.export_entries();
    let (covered, next_seq) =
        recover_store("wal.log", &log, Store::from_entries(entries.clone()), 3).unwrap();
    assert_eq!(covered.export_entries(), entries);
    assert_eq!(next_seq, 4);
    let (replayed, next_seq) = recover_store("wal.log", &log, Store::new(), 0).unwrap();
    assert_eq!(replayed.export_entries(), entries);
    assert_eq!(next_seq, 4);
}

#[test]
fn a_log_of_the_first_version_is_read() {
    let mut log = b"RUST_KV_WAL\t1\n".to_vec();
    log.extend_from_slice(encode_record(1, &set("a", "1")).unwrap().as_bytes());
    let (wal, store) = Wal::open("wal.log".into(), &log).unwrap();
    assert_eq!(wal.last_seq(), 1);
    assert_eq!(store.get("a"), Ok("1"));
}

#[test]
fn a_torn_record_is_noticed_at_every_length() {
    let mut log = encode_header(0).into_bytes();
    log.extend_from_slice(encode_record(1, &set("a", "1")).unwrap().as_bytes());
    let start = log.len();
    let record = encode_record(2, &set("b", "值")).unwrap().into_bytes();
    for written in 1..record.len() {
        let mut torn = log.clone();
        torn.extend_from_slice(&record[..written]);
        let (_, offset, _) = damage(&torn, 0);
        assert_eq!(offset, start as u64);
    }
    log.extend_from_slice(&record);
    let (_, store) = Wal::open("wal.log".into(), &log).unwrap();
    assert_eq!(store.get("b"), Ok("值"));
}

#[test]
fn a_failed_log_takes_no_more_records() {
    let log = encode_header(0).into_bytes();
    let (mut wal, _) = Wal::open("wal.log".into(), &log).unwrap();
    assert_eq!(
        wal.append(&Command::Keys),
        Err(PersistenceError::UnsupportedCommand)
    );
    wal.mark_failed();
    assert_eq!(
        wal.append(&set("a", "1")),
        Err(PersistenceError::Unavailable {
            path: "wal.log".into()
        })
    );
    assert_eq!(wal.last_seq(), 0);
}

#[test]
fn a_record_that_recovery_would_refuse_is_not_written() {
    let mut log = encode_header(0).into_bytes();
    let (mut wal, _) = Wal::open("wal.log".into(), &log).unwrap();
    let too_large = Err(PersistenceError::Corrupt {
        path: "wal.log".into(),
        line: 0,
        offset: 0,
        reason: "record exceeds the maximum size".into(),
    });
    assert_eq!(wal.append(&set("k", &"x".repeat(524_276))), too_large);
    let update = Command::Update {
        key: "k".into(),
        value: "值".repeat(174_759),
    };
    assert_eq!(wal.append(&update), too_large);
    let delete = Command::Delete {
        key: "k".repeat(524_277),
    };
    assert_eq!(wal.append(&delete), too_large);

    let largest = "x".repeat(524_275);
    let record = wal.append(&set("k", &largest)).unwrap();
    assert_eq!(record.len(), MAX_RECORD_BYTES - 1);
    assert_eq!(append(&mut wal, &mut log, &set("k", &largest)), 1);
    let (wal, store) = Wal::open("wal.log".into(), &log).unwrap();
    assert_eq!(store.get("k"), Ok(largest.as_str()));
    assert_eq!(wal.last_seq(), 1);
}

#[test]
fn sequence_numbers_end() {
    let log = encode_header(u64::MAX - 1).into_bytes();
    let (mut wal, _) =
        Wal::open_with_store("wal.log".into(), &log, Store::new(), u64::MAX - 1).unwrap();
    assert!(wal.append(&set("a", "1")).is_ok());
    assert_eq!(
        wal.appended(),
        Err(PersistenceError::Corrupt {
            path: "wal.log".into(),
            line: 0,
            offset: 0,
            reason: "sequence number overflow".into()
        })
    );
    assert!(wal.append(&set("a", "1")).is_err());
}

#[test]
fn persistence_errors_describe_themselves() {
    assert_eq!(
        PersistenceError::io("append WAL", "d/wal.log".into(), "full".into()).message(),
        "append WAL d/wal.log failed: full"
    );
    assert_eq!(
        PersistenceError::Corrupt {
            path: "wal.log".into(),
            line: 3,
            offset: 40,
            reason: "bad".into()
        }
        .message(),
        "corrupt data file wal.log at line 3, byte 40: bad"
    );
    assert_eq!(
        PersistenceError::UnsupportedCommand.message(),
        "command cannot be stored in the WAL"
    );
    assert_eq!(
        PersistenceError::Unavailable {
            path: "wal.log".into()
        }
        .message(),
        "WAL wal.log is unavailable after an earlier write failure"
    );
}

// The snapshot

#[test]
fn snapshot_round_trip_preserves_data_and_sequence() {
    let repository = SnapshotRepository::new("snapshot.json".into());
    let mut store = Store::new();
    store.set("课程".into(), "Rust 程序设计".into()).unwrap();

    let (document, _) = repository.save(&store, 9);
    let loaded = repository.load(from_json(&to_json(&document))).unwrap();

    assert_eq!(loaded.last_seq, 9);
    assert_eq!(loaded.store.get("课程"), Ok("Rust 程序设计"));
}

#[test]
fn invalid_json_is_not_treated_as_an_empty_database() {
    let repository = SnapshotRepository::new("snapshot.json".into());

    assert!(matches!(
        repository.load(from_json(b"{not-json")),
        Err(PersistenceError::Corrupt { .. })
    ));
}

#[test]
fn checksum_mismatch_is_rejected() {
    let repository = SnapshotRepository::new("snapshot.json".into());
    let (document, _) = repository.save(&Store::new(), 0);

    let bytes = to_json(&document);
    let mut document: Value = serde_json::from_slice(&bytes).unwrap();
    document["entries"]["tampered"] = Value::String("value".into());
    let bytes = serde_json::to_vec_pretty(&document).unwrap();

    assert!(matches!(
        repository.load(from_json(&bytes)),
        Err(PersistenceError::Corrupt { .. })
    ));
}

fn snapshot_damage(document: Result<SnapshotFile, String>) -> String {
    let repository = SnapshotRepository::new("snapshot.json".into());
    match repository.load(document) {
        Err(PersistenceError::Corrupt {
            path,
            line: 0,
            offset: 0,
            reason,
        }) => {
            assert_eq!(path, "snapshot.json");
            reason
        }
        other => panic!("{other:?}"),
    }
}

#[test]
fn every_damage_of_a_snapshot_has_its_reason() {
    let repository = SnapshotRepository::new("snapshot.json".into());
    let store = Store::from_entries(vec![("a".into(), "1".into())]);
    let (good, hash) = repository.save(&store, 4);
    assert_eq!(good.checksum, format!("{hash:016X}"));
    assert_eq!(snapshot_damage(Err("eof".into())), "invalid JSON: eof");
    let mut other = good.clone();
    other.magic = "OTHER".into();
    assert_eq!(snapshot_damage(Ok(other)), "invalid snapshot magic");
    let mut other = good.clone();
    other.version = 2;
    assert_eq!(snapshot_damage(Ok(other)), "unsupported snapshot version: 2");
    let mut other = good.clone();
    other.checksum = "none".into();
    assert_eq!(snapshot_damage(Ok(other)), "invalid snapshot checksum");
    let mut other = good.clone();
    other.last_seq = 5;
    let actual = calculate_checksum(1, 5, &other.entries);
    assert_eq!(
        snapshot_damage(Ok(other)),
        format!("checksum mismatch: expected {hash:016X}, calculated {actual:016X}")
    );
}

#[test]
fn the_order_of_entries_in_a_document_does_not_matter() {
    let repository = SnapshotRepository::new("snapshot.json".into());
    let store = Store::from_entries(vec![
        ("a".into(), "1".into()),
        ("b".into(), "2".into()),
    ]);
    let (mut document, _) = repository.save(&store, 1);
    document.entries.reverse();
    let loaded = repository.load(Ok(document)).unwrap();
    assert_eq!(loaded.store.export_entries(), store.export_entries());
}

#[test]
fn the_snapshot_checksum_covers_lengths_and_bytes() {
    let mut canonical = b"RUST_KV_SNAPSHOT".to_vec();
    canonical.extend_from_slice(&1u16.to_le_bytes());
    canonical.extend_from_slice(&0x0102030405060708u64.to_le_bytes());
    for text in ["键", "值值"] {
        canonical.extend_from_slice(&(text.len() as u64).to_le_bytes());
        canonical.extend_from_slice(text.as_bytes());
    }
    let entries = vec![("键".to_string(), "值值".to_string())];
    assert_eq!(
        calculate_checksum(1, 0x0102030405060708, &entries),
        checksum64(&canonical)
    );
    assert_eq!(parse_checksum("00ff"), Ok(255));
    assert_eq!(
        parse_checksum("x"),
        Err("invalid snapshot checksum".to_string())
    );
}

#[test]
fn a_snapshot_file_is_looked_at_before_it_is_read() {
    let repository = SnapshotRepository::new("snapshot.json".into());
    let corrupt = |reason: &str| {
        Err(PersistenceError::Corrupt {
            path: "snapshot.json".into(),
            line: 0,
            offset: 0,
            reason: reason.into(),
        })
    };
    assert_eq!(repository.inspect(&SnapshotMetadata::Missing), Ok(false));
    assert_eq!(
        repository.inspect(&SnapshotMetadata::Unreadable("denied".into())),
        Err(PersistenceError::io(
            "read snapshot metadata",
            "snapshot.json".into(),
            "denied".into()
        ))
    );
    assert_eq!(
        repository.inspect(&SnapshotMetadata::Found {
            is_file: false,
            len: 0
        }),
        corrupt("snapshot path is not a regular file")
    );
    assert_eq!(
        repository.inspect(&SnapshotMetadata::Found {
            is_file: true,
            len: MAX_SNAPSHOT_BYTES + 1
        }),
        corrupt("snapshot exceeds the maximum size")
    );
    assert_eq!(
        repository.inspect(&SnapshotMetadata::Found {
            is_file: true,
            len: MAX_SNAPSHOT_BYTES
        }),
        Ok(true)
    );
}

#[test]
fn a_written_snapshot_is_checked_before_it_counts() {
    let repository = SnapshotRepository::new("snapshot.json".into());
    let (document, hash) = repository.save(&Store::new(), 3);
    let check = |document, last_seq, hash| {
        validate_temporary_snapshot("snapshot.json.tmp", 200, document, last_seq, hash)
    };
    assert_eq!(check(from_json(&to_json(&document)), 3, hash), Ok(()));
    let sized = |len| {
        validate_temporary_snapshot("snapshot.json.tmp", len, Ok(document.clone()), 3, hash)
    };
    assert_eq!(sized(MAX_SNAPSHOT_BYTES), Ok(()));
    assert_eq!(
        sized(MAX_SNAPSHOT_BYTES + 1),
        Err(PersistenceError::Corrupt {
            path: "snapshot.json.tmp".into(),
            line: 0,
            offset: 0,
            reason: "snapshot exceeds the maximum size".into(),
        })
    );
    let failed = Err(PersistenceError::Corrupt {
        path: "snapshot.json.tmp".into(),
        line: 0,
        offset: 0,
        reason: "temporary snapshot verification failed".into(),
    });
    assert_eq!(check(Ok(document.clone()), 4, hash), failed);
    assert_eq!(check(Ok(document.clone()), 3, hash ^ 1), failed);
    let mut other = document.clone();
    other.checksum = "?".into();
    assert_eq!(check(Ok(other), 3, hash), failed);
    assert_eq!(
        check(Err("eof".into()), 3, hash),
        Err(PersistenceError::Corrupt {
            path: "snapshot.json.tmp".into(),
            line: 0,
            offset: 0,
            reason: "temporary snapshot JSON is invalid: eof".into(),
        })
    );
}
