use cosmic_ctl::apply::{plan_apply, ApplyStep, ApplyTally, StepResult};
use cosmic_ctl::backup::{backup_config_file, BackupItem};
use cosmic_ctl::schema::{ConfigFile, Entry, EntryContent, Operation};

fn write_entry(c: &str, v: u64, kvs: &[(&str, &str)]) -> Entry {
    Entry {
        component: c.to_string(),
        version: v,
        operation: Operation::Write,
        entries: EntryContent::WriteEntries(kvs.iter().map(|(k, x)| (k.to_string(), x.to_string())).collect()),
    }
}

fn key_entry(op: Operation, c: &str, v: u64, keys: &[&str]) -> Entry {
    Entry {
        component: c.to_string(),
        version: v,
        operation: op,
        entries: EntryContent::ReadDeleteEntries(keys.iter().map(|k| k.to_string()).collect()),
    }
}

fn step(s: &ApplyStep) -> (Operation, String, u64, String, Option<String>) {
    (s.operation, s.component.clone(), s.version, s.key.clone(), s.value.clone())
}

fn file(ops: Vec<Entry>) -> ConfigFile {
    ConfigFile { schema: "s".to_string(), operations: ops }
}

#[test]
fn plan_follows_entries_in_order() {
    let config = file(vec![
        write_entry("c", 1, &[("a", "1"), ("b", "2")]),
        key_entry(Operation::Read, "d", 2, &["x"]),
        key_entry(Operation::Delete, "e", 3, &["y", "z"]),
    ]);
    let (steps, stopped) = plan_apply(&config);
    assert!(!stopped);
    let got: Vec<_> = steps.iter().map(step).collect();
    assert_eq!(
        got,
        vec![
            (Operation::Write, "c".to_string(), 1, "a".to_string(), Some("1".to_string())),
            (Operation::Write, "c".to_string(), 1, "b".to_string(), Some("2".to_string())),
            (Operation::Read, "d".to_string(), 2, "x".to_string(), None),
            (Operation::Delete, "e".to_string(), 3, "y".to_string(), None),
            (Operation::Delete, "e".to_string(), 3, "z".to_string(), None),
        ]
    );
}

#[test]
fn plan_stops_at_mismatched_entry() {
    let config = file(vec![
        key_entry(Operation::Read, "d", 2, &["x"]),
        key_entry(Operation::Write, "c", 1, &["a"]),
        key_entry(Operation::Delete, "e", 3, &["y"]),
    ]);
    let (steps, stopped) = plan_apply(&config);
    assert!(stopped);
    assert_eq!(steps.len(), 1);
    let config = file(vec![write_entry("c", 1, &[]), Entry { operation: Operation::Read, ..write_entry("c", 1, &[("a", "1")]) }]);
    let (steps, stopped) = plan_apply(&config);
    assert!(stopped);
    assert!(steps.is_empty());
    let (steps, stopped) = plan_apply(&file(vec![]));
    assert!(!stopped && steps.is_empty());
}

#[test]
fn tally_counts_each_step_once() {
    let mut t = ApplyTally::new();
    t.record(Operation::Write, StepResult::Done);
    t.record(Operation::Write, StepResult::Unchanged);
    t.record(Operation::Write, StepResult::Failed);
    t.record(Operation::Read, StepResult::Done);
    t.record(Operation::Read, StepResult::Failed);
    t.record(Operation::Delete, StepResult::Done);
    t.record(Operation::Delete, StepResult::Done);
    assert_eq!(t, ApplyTally { writes: 1, reads: 1, deletes: 2, skipped: 3 });
    assert_eq!(t.writes + t.reads + t.deletes + t.skipped, 7);
    assert_eq!(
        t.summary(),
        "Operations completed successfully. 1 writes, 1 reads, 2 deletes, 3 entries skipped."
    );
}

fn item(c: &str, v: u64, e: &str, x: &str) -> BackupItem {
    BackupItem { component: c.to_string(), version: v, entry: e.to_string(), content: x.to_string() }
}

#[test]
fn backup_groups_by_component_and_version() {
    let items = vec![
        item("a", 1, "x", "1"),
        item("b", 1, "y", "2"),
        item("a", 1, "z", "3"),
        item("a", 2, "x", "4"),
        item("a", 1, "x", "5"),
    ];
    let config = backup_config_file(&items);
    assert_eq!(
        config.schema,
        "https://raw.githubusercontent.com/HeitorAugustoLN/cosmic-ctl/refs/heads/main/schema.json"
    );
    assert_eq!(config.operations.len(), 3);
    let mut groups: Vec<(String, u64, Vec<(String, String)>)> = config
        .operations
        .iter()
        .map(|e| {
            assert_eq!(e.operation, Operation::Write);
            match &e.entries {
                EntryContent::WriteEntries(kvs) => {
                    let mut kvs = kvs.clone();
                    kvs.sort();
                    (e.component.clone(), e.version, kvs)
                }
                EntryContent::ReadDeleteEntries(_) => panic!("backup holds only writes"),
            }
        })
        .collect();
    groups.sort();
    let kv = |k: &str, x: &str| (k.to_string(), x.to_string());
    assert_eq!(
        groups,
        vec![
            ("a".to_string(), 1, vec![kv("x", "5"), kv("z", "3")]),
            ("a".to_string(), 2, vec![kv("x", "4")]),
            ("b".to_string(), 1, vec![kv("y", "2")]),
        ]
    );
}

#[test]
fn applying_a_backup_writes_it_back() {
    let items = vec![item("a", 1, "x", "1"), item("b", 3, "y", "2"), item("a", 1, "z", "3")];
    let config = backup_config_file(&items);
    let (steps, stopped) = plan_apply(&config);
    assert!(!stopped);
    let mut got: Vec<_> = steps.iter().map(step).collect();
    got.sort_by(|p, q| (&p.1, p.2, &p.3).cmp(&(&q.1, q.2, &q.3)));
    assert_eq!(
        got,
        vec![
            (Operation::Write, "a".to_string(), 1, "x".to_string(), Some("1".to_string())),
            (Operation::Write, "a".to_string(), 1, "z".to_string(), Some("3".to_string())),
            (Operation::Write, "b".to_string(), 3, "y".to_string(), Some("2".to_string())),
        ]
    );
}

#[test]
fn empty_backup() {
    let config = backup_config_file(&vec![]);
    assert!(config.operations.is_empty());
}
