use rkv::engine::{after_append, after_compact, plan, Step};
use rkv::error::Error;
use rkv::persist::{log_text, replay, Record};
use rkv::protocol::{Command, Response};
use rkv::store::{now_ms, Store};

/// A store with its log kept in memory; every write to the log succeeds.
struct Engine {
    store: Store,
    log: Vec<Record>,
}

impl Engine {
    fn open(log: Vec<Record>) -> Engine {
        let store = replay(log_text(&log).as_bytes(), "rkv.log").unwrap();
        Engine { store, log }
    }

    fn execute(&mut self, cmd: &Command, clients: usize, now: u64) -> Response {
        match plan(&mut self.store, cmd, clients, 0, now) {
            Step::Reply(r) => r,
            Step::Append(rec) => {
                self.log.push(rec.clone());
                after_append(&mut self.store, rec, Ok(()))
            }
            Step::Compact(records) => {
                let n = records.len();
                self.log = records;
                after_compact(Ok(n))
            }
        }
    }

    fn key_count(&mut self) -> usize {
        self.store.len()
    }
}

fn run(engine: &mut Engine, line: &str) -> Response {
    engine.execute(&Command::parse(line).unwrap(), 1, now_ms())
}

#[test]
fn crud_through_commands() {
    let mut e = Engine::open(Vec::new());
    assert_eq!(run(&mut e, "GET 课程"), Response::NotFound);
    assert_eq!(run(&mut e, "SET 课程 Rust程序设计"), Response::Done);
    assert_eq!(run(&mut e, "GET 课程"), Response::Value("Rust程序设计".into()));
    assert_eq!(run(&mut e, "SET 课程 高级系统编程"), Response::Done);
    assert_eq!(run(&mut e, "GET 课程"), Response::Value("高级系统编程".into()));
    assert_eq!(run(&mut e, "LIST"), Response::Keys(vec!["课程".into()]));
    assert_eq!(run(&mut e, "DEL 课程"), Response::Done);
    assert_eq!(run(&mut e, "DEL 课程"), Response::NotFound);
    assert_eq!(run(&mut e, "PING"), Response::Pong);
}

#[test]
fn data_survives_restart() {
    let log = {
        let mut e = Engine::open(Vec::new());
        run(&mut e, "SET k1 v1");
        run(&mut e, "SET k2 v2");
        run(&mut e, "DEL k1");
        e.log
    };
    let mut e = Engine::open(log);
    assert_eq!(run(&mut e, "GET k1"), Response::NotFound);
    assert_eq!(run(&mut e, "GET k2"), Response::Value("v2".into()));
    assert_eq!(e.key_count(), 1);
}

#[test]
fn stats_reports_key_count() {
    let mut e = Engine::open(Vec::new());
    run(&mut e, "SET a 1");
    match run(&mut e, "STATS") {
        Response::Stats(s) => {
            assert_eq!(s.keys, 1);
            assert_eq!(s.clients, 1);
        }
        other => panic!("期望 STATS，实际 {other:?}"),
    }
}

#[test]
fn failed_append_changes_nothing() {
    let mut store = Store::new();
    store.set("k".into(), "old".into(), None);
    let cmd = Command::parse("SET k new").unwrap();
    let rec = match plan(&mut store, &cmd, 1, 0, 0) {
        Step::Append(rec) => rec,
        _ => panic!("a write must be appended first"),
    };
    let err = Error::Io(std::io::Error::new(std::io::ErrorKind::Other, "disk full"));
    match after_append(&mut store, rec, Err(err)) {
        Response::Failure(m) => assert_eq!(m, "写入失败，数据未保存: IO 错误: disk full"),
        other => panic!("unexpected {other:?}"),
    }
    assert_eq!(store.get_at("k", 0), Some("old"));

    let del = Record::Del { key: "k".into() };
    match after_append(&mut store, del, Err(Error::Internal("x".into()))) {
        Response::Failure(m) => assert_eq!(m, "删除失败，数据未变更: 内部错误: x"),
        other => panic!("unexpected {other:?}"),
    }
    assert_eq!(store.get_at("k", 0), Some("old"));
}

#[test]
fn setex_sets_an_absolute_expiry() {
    let mut e = Engine::open(Vec::new());
    let cmd = Command::parse("SETEX 验证码 1 123456").unwrap();
    assert_eq!(e.execute(&cmd, 1, 10_000), Response::Done);
    assert_eq!(
        e.log,
        vec![Record::Put { key: "验证码".into(), value: "123456".into(), expire_at_ms: Some(11_000) }]
    );
    let get = Command::parse("GET 验证码").unwrap();
    assert_eq!(e.execute(&get, 1, 10_999), Response::Value("123456".into()));
    assert_eq!(e.execute(&get, 1, 11_000), Response::NotFound);
}

#[test]
fn setex_beyond_the_clock_is_refused() {
    let mut e = Engine::open(Vec::new());
    let cmd = Command::parse(&format!("SETEX huge {} value", u64::MAX)).unwrap();
    assert_eq!(
        e.execute(&cmd, 1, 1),
        Response::Failure(format!("过期时间超出范围: {}", u64::MAX))
    );
    assert!(e.log.is_empty());
    assert_eq!(run(&mut e, "PING"), Response::Pong);
}

#[test]
fn delete_of_expired_key_is_not_logged() {
    let mut e = Engine::open(Vec::new());
    let set = Command::parse("SETEX k 1 v").unwrap();
    e.execute(&set, 1, 0);
    let del = Command::parse("DEL k").unwrap();
    assert_eq!(e.execute(&del, 1, 1000), Response::NotFound);
    assert_eq!(e.log.len(), 1);
}

#[test]
fn compact_keeps_latest_data() {
    let mut e = Engine::open(Vec::new());
    for i in 0..10 {
        run(&mut e, &format!("SET k {i}"));
    }
    assert_eq!(run(&mut e, "COMPACT"), Response::Done);
    assert_eq!(run(&mut e, "GET k"), Response::Value("9".into()));
    assert_eq!(log_text(&e.log).lines().count(), 1);
    let mut restarted = Engine::open(e.log.clone());
    assert_eq!(run(&mut restarted, "GET k"), Response::Value("9".into()));
}

#[test]
fn failed_compaction_reports_the_error() {
    assert_eq!(
        after_compact(Err(Error::Corrupt("x".into()))),
        Response::Failure("数据文件损坏: x".into())
    );
    assert_eq!(after_compact(Ok(3)), Response::Done);
}

#[test]
fn quit_and_list_answers() {
    let mut e = Engine::open(Vec::new());
    assert_eq!(run(&mut e, "LIST"), Response::Keys(vec![]));
    run(&mut e, "SET b 2");
    run(&mut e, "SET a 1");
    assert_eq!(run(&mut e, "LIST"), Response::Keys(vec!["a".into(), "b".into()]));
    assert_eq!(run(&mut e, "QUIT"), Response::Bye);
}
