use rkv::error::Error;
use rkv::protocol::{
    validate_key, validate_value, Command, Response, ServerStats, MAX_KEY, MAX_LINE, MAX_VALUE,
};

#[test]
fn parse_basic_commands() {
    assert_eq!(
        Command::parse("SET 课程 Rust程序设计").unwrap(),
        Command::Put {
            key: "课程".into(),
            value: "Rust程序设计".into()
        }
    );
    assert_eq!(
        Command::parse("get k1").unwrap(),
        Command::Get { key: "k1".into() }
    );
    assert_eq!(Command::parse("  LIST  ").unwrap(), Command::List);
    assert_eq!(Command::parse("PING").unwrap(), Command::Ping);
    assert_eq!(Command::parse("EXIT").unwrap(), Command::Quit);
}

#[test]
fn value_keeps_inner_spaces() {
    let cmd = Command::parse("SET note hello  world").unwrap();
    assert_eq!(
        cmd,
        Command::Put {
            key: "note".into(),
            value: "hello  world".into()
        }
    );
}

#[test]
fn value_keeps_trailing_spaces() {
    let cmd = Command::parse("  SET note hello world  \n").unwrap();
    assert_eq!(
        cmd,
        Command::Put {
            key: "note".into(),
            value: "hello world  ".into()
        }
    );
    assert_eq!(Command::parse(&cmd.encode()).unwrap(), cmd);
}

#[test]
fn parse_setex() {
    assert_eq!(
        Command::parse("SETEX k 60 v").unwrap(),
        Command::SetEx {
            key: "k".into(),
            ttl_secs: 60,
            value: "v".into()
        }
    );
    assert!(Command::parse("SETEX k abc v").is_err());
    assert!(Command::parse("SETEX k 0 v").is_err());
}

#[test]
fn reject_invalid_input() {
    assert!(Command::parse("").is_err());
    assert!(Command::parse("FOO a").is_err());
    assert!(Command::parse("SET k").is_err());
    assert!(Command::parse("SET").is_err());
    assert!(Command::parse("GET a b").is_err());
    assert!(Command::parse("LIST extra").is_err());
    assert!(Command::parse(&format!("SET k {}", "v".repeat(MAX_VALUE + 1))).is_err());
}

#[test]
fn command_roundtrip() {
    for cmd in [
        Command::Put {
            key: "k".into(),
            value: "v v".into(),
        },
        Command::SetEx {
            key: "k".into(),
            ttl_secs: 5,
            value: "v".into(),
        },
        Command::Del { key: "k".into() },
        Command::Stats,
        Command::Compact,
    ] {
        assert_eq!(Command::parse(&cmd.encode()).unwrap(), cmd);
    }
}

#[test]
fn response_roundtrip() {
    for resp in [
        Response::Done,
        Response::Value("hello world".into()),
        Response::NotFound,
        Response::Keys(vec!["a".into(), "b".into()]),
        Response::Keys(vec![]),
        Response::Stats(ServerStats {
            keys: 3,
            clients: 2,
            uptime_secs: 10,
        }),
        Response::Pong,
        Response::Bye,
        Response::Failure("未知命令: FOO".into()),
    ] {
        assert_eq!(Response::parse(&resp.encode()).unwrap(), resp);
    }
}

#[test]
fn reject_malformed_responses() {
    for line in [
        "OK extra",
        "VALUE",
        "PONG extra",
        "ERR",
        "STATS keys=1 clients=2",
        "STATS keys=1 clients=x uptime_secs=3",
        "STATS keys=1 keys=2 clients=3 uptime_secs=4",
        "STATS keys=1 clients=2 uptime_secs=3 extra=4",
    ] {
        assert!(Response::parse(line).is_err(), "应拒绝响应: {line}");
    }
}

fn protocol_message(r: Result<Command, Error>) -> String {
    match r {
        Err(Error::Protocol(m)) => m,
        other => panic!("expected a protocol error, got {other:?}"),
    }
}

#[test]
fn parse_error_messages() {
    assert_eq!(protocol_message(Command::parse("")), "空命令");
    assert_eq!(protocol_message(Command::parse("   \r\n")), "空命令");
    assert_eq!(protocol_message(Command::parse("foo a")), "未知命令: FOO");
    assert_eq!(protocol_message(Command::parse("SET k")), "缺少值");
    assert_eq!(protocol_message(Command::parse("SET")), "缺少键名");
    assert_eq!(protocol_message(Command::parse("GET a b")), "GET 只接受一个参数");
    assert_eq!(protocol_message(Command::parse("LIST extra")), "LIST 不接受参数");
    assert_eq!(
        protocol_message(Command::parse("SETEX k abc v")),
        "过期时间必须是正整数秒: abc"
    );
    assert_eq!(protocol_message(Command::parse("SETEX k 0 v")), "过期时间必须大于 0");
    assert_eq!(
        protocol_message(Command::parse(&format!("SET {} v", "k".repeat(MAX_KEY + 1)))),
        "键超长，上限 256 字节"
    );
    assert_eq!(
        protocol_message(Command::parse(&format!("SET k {}", "v".repeat(MAX_VALUE + 1)))),
        "值超长，上限 4096 字节"
    );
    assert_eq!(
        protocol_message(Command::parse(&format!("SET k {}", "v".repeat(MAX_LINE)))),
        "命令超长，上限 8192 字节"
    );
}

#[test]
fn limits_at_their_bounds_are_accepted() {
    let key = "k".repeat(MAX_KEY);
    let value = "v".repeat(MAX_VALUE);
    let cmd = Command::parse(&format!("SET {key} {value}")).unwrap();
    assert_eq!(cmd, Command::Put { key, value });
    // 3 bytes per character: 85 characters fit in 256 bytes, 86 do not.
    assert!(Command::parse(&format!("GET {}", "键".repeat(85))).is_ok());
    assert!(Command::parse(&format!("GET {}", "键".repeat(86))).is_err());
}

#[test]
fn quit_and_setex_lines() {
    assert_eq!(Command::parse("quit").unwrap(), Command::Quit);
    assert_eq!(
        Command::SetEx { key: "验证码".into(), ttl_secs: 60, value: "123 456".into() }.encode(),
        "SETEX 验证码 60 123 456"
    );
    assert_eq!(Command::Get { key: "k".into() }.encode(), "GET k");
    assert_eq!(Command::Quit.encode(), "QUIT");
}

#[test]
fn response_lines_and_display() {
    let stats = Response::Stats(ServerStats { keys: 3, clients: 2, uptime_secs: 10 });
    assert_eq!(stats.encode(), "STATS keys=3 clients=2 uptime_secs=10");
    assert_eq!(stats.display(), "键数量: 3  在线连接: 2  运行时长: 10s");
    let keys = Response::Keys(vec!["a".into(), "b".into()]);
    assert_eq!(keys.encode(), "KEYS a b");
    assert_eq!(keys.display(), "1) a\n2) b");
    assert_eq!(Response::Keys(vec![]).encode(), "KEYS");
    assert_eq!(Response::Keys(vec![]).display(), "(空) 暂无数据");
    assert_eq!(Response::Done.encode(), "OK");
    assert_eq!(Response::NotFound.display(), "(空) 键不存在");
    assert_eq!(Response::Failure("x".into()).encode(), "ERR x");
    assert_eq!(Response::Failure("x".into()).display(), "错误: x");
    assert_eq!(Response::Bye.display(), "已断开连接");
    assert_eq!(Response::Value("v 1".into()).encode(), "VALUE v 1");
}

#[test]
fn response_parse_messages() {
    match Response::parse("HELLO") {
        Err(Error::Protocol(m)) => assert_eq!(m, "无法识别的响应: HELLO"),
        other => panic!("unexpected {other:?}"),
    }
    match Response::parse("VALUE") {
        Err(Error::Protocol(m)) => assert_eq!(m, "VALUE 响应缺少值"),
        other => panic!("unexpected {other:?}"),
    }
    assert_eq!(Response::parse("VALUE a  b\r\n").unwrap(), Response::Value("a  b".into()));
}

#[test]
fn keys_and_values_are_checked() {
    assert!(validate_key("课程").is_ok());
    match validate_key("a b") {
        Err(Error::Protocol(m)) => assert_eq!(m, "键中不能包含空白字符"),
        other => panic!("unexpected {other:?}"),
    }
    match validate_key("") {
        Err(Error::Protocol(m)) => assert_eq!(m, "缺少键名"),
        other => panic!("unexpected {other:?}"),
    }
    assert!(validate_value("a b  c").is_ok());
    match validate_value("a\nb") {
        Err(Error::Protocol(m)) => assert_eq!(m, "值中不能包含换行符"),
        other => panic!("unexpected {other:?}"),
    }
    assert!(validate_value(&"v".repeat(MAX_VALUE)).is_ok());
    assert!(validate_value(&"v".repeat(MAX_VALUE + 1)).is_err());
}
