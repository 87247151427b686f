use rkv::protocol::{Command, Response, MAX_LINE};
use rkv::session::{batch_input, BatchStep, batch_command_line, classify, console_input, react, reply_text, Input, Reaction, Request};

#[test]
fn batch_lines_skip_empty_and_comments() {
    assert_eq!(batch_command_line("").as_deref(), None);
    assert_eq!(batch_command_line("   ").as_deref(), None);
    assert_eq!(batch_command_line("# comment").as_deref(), None);
    assert_eq!(batch_command_line("  # comment").as_deref(), None);
    assert_eq!(batch_command_line("  GET course").as_deref(), Some("GET course"));
    assert_eq!(
        batch_command_line("SET note trailing  ").as_deref(),
        Some("SET note trailing  ")
    );
}

fn reply_of(r: Reaction) -> Response {
    match r {
        Reaction::Reply(resp) => resp,
        _ => panic!("expected a reply"),
    }
}

#[test]
fn reads_are_classified() {
    assert!(matches!(classify(b""), Request::Eof));
    assert!(matches!(classify(b"PING"), Request::TooLong));
    assert!(matches!(classify(&[0xff, 0xfe, b'\n']), Request::NotUtf8));
    match classify("GET 课程\n".as_bytes()) {
        Request::Line(l) => assert_eq!(l, "GET 课程\n"),
        _ => panic!("expected a line"),
    }
}

#[test]
fn bad_requests_get_an_error_answer() {
    assert_eq!(
        reply_of(react(Request::TooLong)),
        Response::Failure(format!("请求超长，上限 {MAX_LINE} 字节"))
    );
    assert_eq!(
        reply_of(react(Request::NotUtf8)),
        Response::Failure("请求不是合法的 UTF-8 文本".into())
    );
    assert_eq!(
        reply_of(react(Request::Line("FOO bar\n".into()))),
        Response::Failure("命令错误: 未知命令: FOO".into())
    );
    let blank = reply_of(react(Request::Line("\n".into())));
    assert_eq!(blank, Response::Failure("命令错误: 空命令".into()));
    assert!(blank.encode().starts_with("ERR"));
    assert!(matches!(react(Request::Eof), Reaction::Close));
}

#[test]
fn commands_are_executed_and_quit_closes() {
    match react(Request::Line("SET k v\n".into())) {
        Reaction::Execute(c) => assert_eq!(c, Command::Put { key: "k".into(), value: "v".into() }),
        _ => panic!("expected an execution"),
    }
    match react(Request::Line("quit\r\n".into())) {
        Reaction::ExecuteThenClose(c) => assert_eq!(c, Command::Quit),
        _ => panic!("expected an execution that closes"),
    }
}

#[test]
fn console_lines() {
    assert!(matches!(console_input("   "), Input::Skip));
    assert!(matches!(console_input("  help  "), Input::Help));
    assert!(matches!(console_input("HeLp"), Input::Help));
    match console_input("SET k") {
        Input::Invalid(m) => assert_eq!(m, "命令错误: 缺少值（输入 HELP 查看用法）"),
        _ => panic!("expected an invalid line"),
    }
    match console_input("  get k") {
        Input::Send(c) => assert_eq!(c, Command::Get { key: "k".into() }),
        _ => panic!("expected a command"),
    }
}

#[test]
fn reply_lines_are_shown() {
    assert_eq!(reply_text("VALUE Rust程序设计\n"), Ok("Rust程序设计".to_string()));
    assert_eq!(reply_text("KEYS a b\n"), Ok("1) a\n2) b".to_string()));
    assert_eq!(
        reply_text("BOGUS\n"),
        Err("无法解析服务器响应: 命令错误: 无法识别的响应: BOGUS".to_string())
    );
}

#[test]
fn command_file_lines() {
    assert!(matches!(batch_input("  # note"), BatchStep::Skip));
    assert!(matches!(batch_input("   "), BatchStep::Skip));
    assert!(matches!(batch_input("  help"), BatchStep::Help));
    // Trailing spaces are kept, so this is not the help command.
    match batch_input("HELP  ") {
        BatchStep::Invalid(m) => assert_eq!(m, "命令错误: 未知命令: HELP"),
        _ => panic!("expected an invalid line"),
    }
    match batch_input("SET k") {
        BatchStep::Invalid(m) => assert_eq!(m, "命令错误: 缺少值"),
        _ => panic!("expected an invalid line"),
    }
    match batch_input("  GET course") {
        BatchStep::Send(c) => assert_eq!(c, Command::Get { key: "course".into() }),
        _ => panic!("expected a command"),
    }
}
