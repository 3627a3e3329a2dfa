use kv_storage_rust::domain::{Command, DomainError, Reply, SetOutcome, Store, StoreStatus};

fn set(key: &str, value: &str) -> Command {
    Command::SetValue {
        key: key.into(),
        value: value.into(),
    }
}

#[test]
fn set_creates_and_then_overwrites_a_value() {
    let mut store = Store::new();

    assert_eq!(
        store.set("course".into(), "Rust".into()),
        Ok(SetOutcome::Created)
    );
    assert_eq!(
        store.set("course".into(), "Advanced Rust".into()),
        Ok(SetOutcome::Overwritten {
            old_value: "Rust".into()
        })
    );
    assert_eq!(store.get("course"), Ok("Advanced Rust"));
}

#[test]
fn update_requires_an_existing_key() {
    let mut store = Store::new();

    assert_eq!(
        store.update("missing", "value".into()),
        Err(DomainError::NotFound {
            key: "missing".into()
        })
    );

    store.set("course".into(), "Rust".into()).unwrap();
    assert_eq!(
        store.update("course", "Advanced Rust".into()),
        Ok("Rust".into())
    );
    assert_eq!(store.get("course"), Ok("Advanced Rust"));
}

#[test]
fn delete_removes_and_returns_the_value() {
    let mut store = Store::new();
    store.set("course".into(), "Rust".into()).unwrap();

    assert_eq!(store.delete("course"), Ok("Rust".into()));
    assert_eq!(
        store.get("course"),
        Err(DomainError::NotFound {
            key: "course".into()
        })
    );
}

#[test]
fn keys_are_sorted_for_deterministic_output() {
    let mut store = Store::new();
    store.set("teacher".into(), "Li".into()).unwrap();
    store.set("course".into(), "Rust".into()).unwrap();

    assert_eq!(store.keys(), vec!["course", "teacher"]);
    assert_eq!(store.status(), StoreStatus { key_count: 2 });
}

#[test]
fn empty_keys_are_rejected() {
    let mut store = Store::new();

    assert_eq!(
        store.set(String::new(), "value".into()),
        Err(DomainError::EmptyKey)
    );
    assert_eq!(store.get(""), Err(DomainError::EmptyKey));
    assert_eq!(store.delete(""), Err(DomainError::EmptyKey));
}

#[test]
fn execute_dispatches_domain_commands() {
    let mut store = Store::new();

    assert_eq!(
        store.execute(Command::SetValue {
            key: "course".into(),
            value: "Rust".into()
        }),
        Ok(Reply::SetValue(SetOutcome::Created))
    );
    assert_eq!(
        store.execute(Command::Get {
            key: "course".into()
        }),
        Ok(Reply::Value("Rust".into()))
    );
}

#[test]
fn validation_does_not_modify_the_store() {
    let mut store = Store::new();
    store.set("course".into(), "Rust".into()).unwrap();

    assert_eq!(
        store.validate(&Command::Update {
            key: "course".into(),
            value: "Advanced Rust".into(),
        }),
        Ok(())
    );
    assert_eq!(store.get("course"), Ok("Rust"));
}

#[test]
fn every_command_has_its_reply() {
    let mut store = Store::default();
    assert_eq!(
        store.execute(set("b", "1")),
        Ok(Reply::SetValue(SetOutcome::Created))
    );
    assert_eq!(
        store.execute(set("b", "2")),
        Ok(Reply::SetValue(SetOutcome::Overwritten {
            old_value: "1".into()
        }))
    );
    assert_eq!(
        store.execute(Command::Update {
            key: "b".into(),
            value: "3".into()
        }),
        Ok(Reply::Updated {
            old_value: "2".into()
        })
    );
    store.set("a".into(), "x".into()).unwrap();
    assert_eq!(
        store.execute(Command::Keys),
        Ok(Reply::Keys(vec!["a".into(), "b".into()]))
    );
    assert_eq!(
        store.execute(Command::Delete { key: "b".into() }),
        Ok(Reply::Deleted { value: "3".into() })
    );
    assert_eq!(
        store.execute(Command::Status),
        Ok(Reply::Status(StoreStatus { key_count: 1 }))
    );
}

#[test]
fn validation_gives_the_error_of_the_execution() {
    let commands = [
        set("", "v"),
        set("k", "v"),
        Command::Update {
            key: "k".into(),
            value: "v".into(),
        },
        Command::Update {
            key: String::new(),
            value: "v".into(),
        },
        Command::Get { key: "k".into() },
        Command::Delete { key: "k".into() },
        Command::Keys,
        Command::Status,
    ];
    for command in commands {
        let mut store = Store::new();
        let expected = store.validate(&command);
        assert_eq!(store.execute(command).map(|_| ()), expected);
    }
}

#[test]
fn refused_commands_leave_the_store_alone() {
    let mut store = Store::new();
    store.set("k".into(), "v".into()).unwrap();
    assert!(store.execute(set("", "x")).is_err());
    assert!(store
        .execute(Command::Delete {
            key: "other".into()
        })
        .is_err());
    assert_eq!(
        store.export_entries(),
        vec![("k".to_string(), "v".to_string())]
    );
}

#[test]
fn keys_are_ordered_by_their_bytes() {
    let mut store = Store::new();
    for key in ["é", "z", "a", "Z", "a b", "ab", "\u{10FFFF}", "\u{FFFD}"] {
        store.set(key.into(), "v".into()).unwrap();
    }
    let mut expected = vec!["é", "z", "a", "Z", "a b", "ab", "\u{10FFFF}", "\u{FFFD}"];
    expected.sort();
    assert_eq!(store.keys(), expected);
}

#[test]
fn entries_are_exported_in_order_and_read_back() {
    let store = Store::from_entries(vec![
        ("b".into(), "1".into()),
        ("a".into(), "2".into()),
        ("b".into(), "3".into()),
    ]);
    assert_eq!(
        store.export_entries(),
        vec![
            ("a".to_string(), "2".to_string()),
            ("b".to_string(), "3".to_string()),
        ]
    );
    let again = Store::from_entries(store.export_entries());
    assert_eq!(again.export_entries(), store.export_entries());
}

#[test]
fn clearing_a_store_counts_its_keys() {
    let mut store = Store::new();
    assert_eq!(store.clear(), 0);
    store.set("a".into(), "1".into()).unwrap();
    store.set("b".into(), "2".into()).unwrap();
    assert_eq!(store.clear(), 2);
    assert_eq!(store.status().key_count, 0);
    assert_eq!(
        store.get("a"),
        Err(DomainError::NotFound { key: "a".into() })
    );
}

#[test]
fn domain_errors_describe_themselves() {
    assert_eq!(DomainError::EmptyKey.message(), "key must not be empty");
    assert_eq!(
        DomainError::NotFound { key: "课程".into() }.message(),
        "key not found: 课程"
    );
}
