use rkv::error::Error;
use rkv::persist::{bad_escape_message, log_text, replay, snapshot, Record};
use rkv::store::{Entry, Store};

fn corrupt_message(r: Result<Store, Error>) -> String {
    match r {
        Err(Error::Corrupt(m)) => m,
        Err(e) => panic!("expected a corrupt-file error, got {e:?}"),
        Ok(_) => panic!("expected a corrupt-file error"),
    }
}

#[test]
fn record_roundtrip() {
    for rec in [
        Record::Put {
            key: "k 1".into(),
            value: "含\t制表符和\\反斜杠".into(),
            expire_at_ms: None,
        },
        Record::Put {
            key: "k".into(),
            value: "v".into(),
            expire_at_ms: Some(1234),
        },
        Record::Del { key: "k".into() },
    ] {
        assert_eq!(Record::decode(&rec.encode()).unwrap(), rec);
    }
}

#[test]
fn recover_final_state_after_restart() {
    let mut log: Vec<Record> = Vec::new();
    let mut store = replay(log_text(&log).as_bytes(), "rkv.log").unwrap();
    assert_eq!(store.len(), 0);
    log.push(Record::Put { key: "a".into(), value: "1".into(), expire_at_ms: None });
    log.push(Record::Put { key: "a".into(), value: "2".into(), expire_at_ms: None });
    log.push(Record::Put { key: "b".into(), value: "x".into(), expire_at_ms: None });
    log.push(Record::Del { key: "b".into() });

    let mut store2 = replay(log_text(&log).as_bytes(), "rkv.log").unwrap();
    assert_eq!(store2.get("a"), Some("2"));
    assert_eq!(store2.get("b"), None);
    assert_eq!(store2.len(), 1);
    assert!(store.is_empty());
}

#[test]
fn corrupt_file_reports_error() {
    let m = corrupt_message(replay("SET\tk\t-\tv\nBAD LINE\n".as_bytes(), "a.log"));
    assert_eq!(m, "第 2 行 数据文件损坏: 字段个数或类型非法: BAD LINE");
}

#[test]
fn truncated_file_reports_error() {
    let m = corrupt_message(replay("SET\tk\t-\tv\nSET\tk2\t-\tpar".as_bytes(), "data/a.log"));
    assert_eq!(m, "文件 data/a.log 末尾记录不完整（可能被截断）");
}

#[test]
fn invalid_utf8_line_is_reported() {
    let mut data = b"SET\tk\t-\tv\n\n".to_vec();
    data.extend_from_slice(&[0xff, 0xfe, b'\n']);
    let m = corrupt_message(replay(&data, "a.log"));
    assert_eq!(m, "第 3 行读取失败: stream did not contain valid UTF-8");
}

#[test]
fn decoding_errors_name_the_field() {
    let m = corrupt_message(replay("SET\tk\tsoon\tv\n".as_bytes(), "a.log"));
    assert_eq!(m, "第 1 行 数据文件损坏: 非法的过期时间: soon");
    let m = corrupt_message(replay("DEL\tk\\x\n".as_bytes(), "a.log"));
    assert_eq!(m, "第 1 行 数据文件损坏: 非法转义字符: \\Some('x')");
    let m = corrupt_message(replay("DEL\tk\\\n".as_bytes(), "a.log"));
    assert_eq!(m, "第 1 行 数据文件损坏: 非法转义字符: \\None");
}

#[test]
fn empty_lines_are_skipped() {
    let mut s = replay("\nSET\tk\t-\tv\n\n".as_bytes(), "a.log").unwrap();
    assert_eq!(s.get("k"), Some("v"));
    // A carriage return before the line feed is dropped from the line but not counted, so
    // the lines no longer account for every byte.
    let m = corrupt_message(replay("SET\tk\t-\tv\r\n".as_bytes(), "a.log"));
    assert_eq!(m, "文件 a.log 末尾记录不完整（可能被截断）");
    let mut empty = replay(b"", "a.log").unwrap();
    assert_eq!(empty.len(), 0);
}

#[test]
fn record_lines_are_exact() {
    let rec = Record::Put { key: "k 1".into(), value: "a\tb\\c\nd".into(), expire_at_ms: Some(42) };
    assert_eq!(rec.encode(), "SET\tk 1\t42\ta\\tb\\\\c\\nd");
    assert_eq!(Record::Del { key: "x\ry".into() }.encode(), "DEL\tx\\ry");
    assert_eq!(
        log_text(&[rec.clone(), Record::Del { key: "k 1".into() }]),
        "SET\tk 1\t42\ta\\tb\\\\c\\nd\nDEL\tk 1\n"
    );
}

#[test]
fn expiry_survives_recovery() {
    let log = vec![Record::Put { key: "code".into(), value: "123456".into(), expire_at_ms: Some(5000) }];
    let mut s = replay(log_text(&log).as_bytes(), "a.log").unwrap();
    assert_eq!(s.get_at("code", 4999), Some("123456"));
    assert_eq!(s.get_at("code", 5000), None);
}

#[test]
fn compact_shrinks_log() {
    let mut log = Vec::new();
    let mut store = Store::new();
    for i in 0..5 {
        let rec = Record::Put { key: "k".into(), value: i.to_string(), expire_at_ms: None };
        log.push(rec);
        store.set("k".into(), i.to_string(), None);
    }
    store.set("old".into(), "x".into(), Some(1));
    let records = snapshot(store.iter_valid_at(10));
    assert_eq!(records.len(), 1);
    let text = log_text(&records);
    assert_eq!(text.lines().count(), 1);
    let mut restored = replay(text.as_bytes(), "a.log").unwrap();
    assert_eq!(restored.get("k"), Some("4"));
    assert_eq!(restored.get("old"), None);
    // The full log recovers the same value, with five records instead of one.
    let mut full = replay(log_text(&log).as_bytes(), "a.log").unwrap();
    assert_eq!(full.get("k"), Some("4"));
    assert_eq!(log_text(&log).lines().count(), 5);
}

#[test]
fn snapshot_writes_each_entry() {
    let entries = vec![
        ("a".to_string(), Entry { value: "1".into(), expire_at_ms: None }),
        ("b".to_string(), Entry { value: "2".into(), expire_at_ms: Some(9) }),
    ];
    assert_eq!(
        snapshot(entries),
        vec![
            Record::Put { key: "a".into(), value: "1".into(), expire_at_ms: None },
            Record::Put { key: "b".into(), value: "2".into(), expire_at_ms: Some(9) },
        ]
    );
}

#[test]
fn escape_error_messages() {
    assert_eq!(bad_escape_message(None), "非法转义字符: \\None");
    assert_eq!(bad_escape_message(Some("'x'")), "非法转义字符: \\Some('x')");
    match Record::decode("SET\tk\t-\tv\\q") {
        Err(Error::Corrupt(m)) => assert_eq!(m, "非法转义字符: \\Some('q')"),
        other => panic!("unexpected {other:?}"),
    }
}

#[test]
fn appending_adds_one_line() {
    let mut log = vec![Record::Put { key: "a".into(), value: "1".into(), expire_at_ms: None }];
    let before = log_text(&log);
    let rec = Record::Del { key: "a".into() };
    log.push(rec.clone());
    assert_eq!(log_text(&log), format!("{before}{}", log_text(&[rec])));
    assert_eq!(log_text(&log), "SET\ta\t-\t1\nDEL\ta\n");
}
