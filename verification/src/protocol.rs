//! Commands, responses, and their one-line text protocol.
//!
//! Each message is one line of UTF-8 text ending in `\n`:
//! - requests such as `SET 课程 Rust程序设计`, `GET 课程`, `LIST`;
//! - responses such as `OK`, `VALUE Rust程序设计`, `NOT_FOUND`, `ERR 未知命令: FOO`.
//!
//! Client and server share this module, so both sides agree on command names,
//! argument counts, and error feedback.
use vstd::prelude::*;
use crate::error::{Error, ErrorView, Result};
use crate::text::{
    all_ws, byte_len, chars_of, find_char, is_ws, lemma_byte_len_bound, lemma_byte_len_concat,
    lemma_dec, lemma_dec_len_u64, lemma_parse_dec, lemma_split_ws_concat, lemma_split_ws_word,
    lemma_trim_newlines_none, lemma_trim_start_space, skip_ws_from, lemma_skip_ws_from,
    lemma_words_join, lemma_words_single, lemma_words_cons, lemma_join_ends, lemma_find_concat, find_from, join, lemma_find_from, push_joined,
    slice_chars, split_words, words, contains_char, contains_ws, dec, eq_lit, has_ws, is_blank,
    longer_than, parse_u64, parse_uint, push_decimal, split_word, split_ws, string_of, to_upper,
    trim_front, trim_line_end, trim_newlines, trim_start, upper, views,
};

verus! {

/// Largest size of one message, in bytes, so that a long request cannot exhaust memory.
pub const MAX_LINE: usize = 8 * 1024;

/// Largest size of a key, in bytes.
pub const MAX_KEY: usize = 256;

/// Largest size of a value, in bytes.
pub const MAX_VALUE: usize = 4 * 1024;

/// An operation a client can request.
#[derive(Debug, Clone, PartialEq, Eq)]
pub enum Command {
    /// Write or overwrite: `SET <key> <value>`.
    Put { key: String, value: String },
    /// Write with a time to live: `SETEX <key> <seconds> <value>`.
    SetEx { key: String, ttl_secs: u64, value: String },
    /// Read: `GET <key>`.
    Get { key: String },
    /// Delete: `DEL <key>`.
    Del { key: String },
    /// List all keys: `LIST`.
    List,
    /// Server status: `STATS`.
    Stats,
    /// Liveness check: `PING`.
    Ping,
    /// Rewrite the log with the live data only: `COMPACT`.
    Compact,
    /// Close the connection: `QUIT`.
    Quit,
}

/// A [`Command`] with its strings taken as character sequences.
pub enum CommandView {
    Put { key: Seq<char>, value: Seq<char> },
    SetEx { key: Seq<char>, ttl_secs: u64, value: Seq<char> },
    Get { key: Seq<char> },
    Del { key: Seq<char> },
    List,
    Stats,
    Ping,
    Compact,
    Quit,
}

impl View for Command {
    type V = CommandView;

    open spec fn view(&self) -> CommandView {
        match self {
            Command::Put { key, value } => CommandView::Put { key: key@, value: value@ },
            Command::SetEx { key, ttl_secs, value } => CommandView::SetEx {
                key: key@,
                ttl_secs: *ttl_secs,
                value: value@,
            },
            Command::Get { key } => CommandView::Get { key: key@ },
            Command::Del { key } => CommandView::Del { key: key@ },
            Command::List => CommandView::List,
            Command::Stats => CommandView::Stats,
            Command::Ping => CommandView::Ping,
            Command::Compact => CommandView::Compact,
            Command::Quit => CommandView::Quit,
        }
    }
}

/// A snapshot of the server's state.
#[derive(Debug, Clone, Copy, PartialEq, Eq, Structural)]
pub struct ServerStats {
    /// Number of live keys.
    pub keys: usize,
    /// Number of connected clients.
    pub clients: usize,
    /// Seconds since the server started.
    pub uptime_secs: u64,
}

/// What the server answers.
#[derive(Debug, Clone, PartialEq, Eq)]
pub enum Response {
    /// The operation succeeded.
    Done,
    /// The key was found, with its value.
    Value(String),
    /// The key does not exist.
    NotFound,
    /// The keys, in ascending order.
    Keys(Vec<String>),
    /// The server's status.
    Stats(ServerStats),
    /// The answer to `PING`.
    Pong,
    /// The answer to `QUIT`.
    Bye,
    /// An error; the connection stays open.
    Failure(String),
}

/// A [`Response`] with its strings taken as character sequences.
pub enum ResponseView {
    Done,
    Value(Seq<char>),
    NotFound,
    Keys(Seq<Seq<char>>),
    Stats(ServerStats),
    Pong,
    Bye,
    Failure(Seq<char>),
}

impl View for Response {
    type V = ResponseView;

    open spec fn view(&self) -> ResponseView {
        match self {
            Response::Done => ResponseView::Done,
            Response::Value(v) => ResponseView::Value(v@),
            Response::NotFound => ResponseView::NotFound,
            Response::Keys(ks) => ResponseView::Keys(views(ks@)),
            Response::Stats(s) => ResponseView::Stats(*s),
            Response::Pong => ResponseView::Pong,
            Response::Bye => ResponseView::Bye,
            Response::Failure(m) => ResponseView::Failure(m@),
        }
    }
}

/// A result with its value and its error taken by their views.
pub open spec fn result_view<T: View>(r: Result<T>) -> core::result::Result<T::V, ErrorView> {
    match r {
        Ok(v) => Ok(v@),
        Err(e) => Err(e@),
    }
}

/// A protocol outcome whose failure is a `Protocol` error with the given message.
pub open spec fn lift<V>(r: core::result::Result<V, Seq<char>>) -> core::result::Result<
    V,
    ErrorView,
> {
    match r {
        Ok(v) => Ok(v),
        Err(m) => Err(ErrorView::Protocol(m)),
    }
}

/// Whether `r` is success when `expected` is `None`, and otherwise the `Protocol` error
/// with the message that `expected` holds.
pub open spec fn check_outcome(r: Result<()>, expected: Option<Seq<char>>) -> bool {
    match r {
        Ok(_) => expected is None,
        Err(e) => expected is Some && e@ == ErrorView::Protocol(expected->0),
    }
}

/// "<text> <limit> 字节": the message of a size limit.
pub open spec fn limit_msg(text: Seq<char>, limit: nat) -> Seq<char> {
    text + dec(limit) + " 字节"@
}

/// Why `key` is not a valid key, if it is not: it must be non-empty, at most
/// [`MAX_KEY`] bytes, and free of whitespace.
pub open spec fn key_error(key: Seq<char>) -> Option<Seq<char>> {
    if key.len() == 0 {
        Some("缺少键名"@)
    } else if byte_len(key) > MAX_KEY {
        Some(limit_msg("键超长，上限 "@, MAX_KEY as nat))
    } else if has_ws(key) {
        Some("键中不能包含空白字符"@)
    } else {
        None
    }
}

/// Why `value` is not a valid value, if it is not: it must be non-empty, at most
/// [`MAX_VALUE`] bytes, and free of `'\n'` and `'\r'`.
pub open spec fn value_error(value: Seq<char>) -> Option<Seq<char>> {
    if value.len() == 0 {
        Some("缺少值"@)
    } else if byte_len(value) > MAX_VALUE {
        Some(limit_msg("值超长，上限 "@, MAX_VALUE as nat))
    } else if value.contains('\n') || value.contains('\r') {
        Some("值中不能包含换行符"@)
    } else {
        None
    }
}

/// A `Protocol` error with the message `m`.
fn protocol_error(m: String) -> (e: Error)
    ensures
        e@ == ErrorView::Protocol(m@),
{
    Error::Protocol(m)
}

/// `a` followed by `b`.
pub(crate) fn text2(a: &str, b: &[char]) -> (r: String)
    ensures
        r@ == a@ + b@,
{
    let mut r = String::from_str(a);
    let bs = string_of(b);
    r.append(bs.as_str());
    r
}

/// The literal `a` followed by the literal `b`.
pub(crate) fn concat2(a: &str, b: &str) -> (r: String)
    ensures
        r@ == a@ + b@,
{
    let mut r = String::from_str(a);
    r.append(b);
    r
}

/// The size-limit message "<text> <limit> 字节".
pub(crate) fn limit_text(text: &str, limit: usize) -> (r: String)
    ensures
        r@ == limit_msg(text@, limit as nat),
{
    let mut r = String::from_str(text);
    push_decimal(&mut r, limit as u64);
    r.append(" 字节");
    r
}

/// Checks a key: non-empty, at most [`MAX_KEY`] bytes, no whitespace.
pub fn check_key(key: &[char]) -> (r: Result<()>)
    ensures
        check_outcome(r, key_error(key@)),
{
    if key.len() == 0 {
        return Err(protocol_error(String::from_str("缺少键名")));
    }
    if longer_than(key, MAX_KEY) {
        return Err(protocol_error(limit_text("键超长，上限 ", MAX_KEY)));
    }
    if contains_ws(key) {
        return Err(protocol_error(String::from_str("键中不能包含空白字符")));
    }
    Ok(())
}

/// Checks a value: non-empty, at most [`MAX_VALUE`] bytes, no `'\n'` or `'\r'`.
pub fn check_value(value: &[char]) -> (r: Result<()>)
    ensures
        check_outcome(r, value_error(value@)),
{
    if value.len() == 0 {
        return Err(protocol_error(String::from_str("缺少值")));
    }
    if longer_than(value, MAX_VALUE) {
        return Err(protocol_error(limit_text("值超长，上限 ", MAX_VALUE)));
    }
    if contains_char(value, '\n') || contains_char(value, '\r') {
        return Err(protocol_error(String::from_str("值中不能包含换行符")));
    }
    Ok(())
}

/// Checks a key: non-empty, at most [`MAX_KEY`] bytes, no whitespace.
pub fn validate_key(key: &str) -> (r: Result<()>)
    ensures
        check_outcome(r, key_error(key@)),
{
    let k = chars_of(key);
    check_key(&k)
}

/// Checks a value: non-empty, at most [`MAX_VALUE`] bytes, no `'\n'` or `'\r'`.
pub fn validate_value(value: &str) -> (r: Result<()>)
    ensures
        check_outcome(r, value_error(value@)),
{
    let v = chars_of(value);
    check_value(&v)
}

} // verus!

verus! {

/// The message for a request longer than [`MAX_LINE`].
pub open spec fn line_too_long_msg() -> Seq<char> {
    limit_msg("命令超长，上限 "@, MAX_LINE as nat)
}

/// `SET` arguments: a key, then the value (everything after the whitespace that follows the key).
pub open spec fn parse_put_args(rest: Seq<char>) -> core::result::Result<CommandView, Seq<char>> {
    let key = split_ws(rest).0;
    let value = trim_start(split_ws(rest).1);
    match key_error(key) {
        Some(m) => Err(m),
        None => match value_error(value) {
            Some(m) => Err(m),
            None => Ok(CommandView::Put { key, value }),
        },
    }
}

/// `SETEX` arguments: a key, a positive number of seconds, then the value.
pub open spec fn parse_setex_args(rest: Seq<char>) -> core::result::Result<CommandView, Seq<char>> {
    let key = split_ws(rest).0;
    let after_key = trim_start(split_ws(rest).1);
    let ttl = split_ws(after_key).0;
    let value = trim_start(split_ws(after_key).1);
    match key_error(key) {
        Some(m) => Err(m),
        None => match value_error(value) {
            Some(m) => Err(m),
            None => match parse_uint(ttl, u64::MAX as nat) {
                None => Err("过期时间必须是正整数秒: "@ + ttl),
                Some(t) => if t == 0 {
                    Err("过期时间必须大于 0"@)
                } else {
                    Ok(CommandView::SetEx { key, ttl_secs: t as u64, value })
                },
            },
        },
    }
}

/// The single key argument of the command `name`.
pub open spec fn single_key_arg(name: Seq<char>, rest: Seq<char>) -> core::result::Result<
    Seq<char>,
    Seq<char>,
> {
    let key = split_ws(rest).0;
    let extra = split_ws(rest).1;
    if !all_ws(extra) {
        Err(name + " 只接受一个参数"@)
    } else {
        match key_error(key) {
            Some(m) => Err(m),
            None => Ok(key),
        }
    }
}

/// A command `name` that takes no argument.
pub open spec fn no_arg_command(name: Seq<char>, rest: Seq<char>, cmd: CommandView) -> core::result::Result<
    CommandView,
    Seq<char>,
> {
    if all_ws(rest) {
        Ok(cmd)
    } else {
        Err(name + " 不接受参数"@)
    }
}

/// The command a request line stands for, or why it stands for none.
///
/// Only the line's trailing `'\r'`/`'\n'` and its leading whitespace are removed: a value
/// keeps its inner and trailing spaces. The command name is matched without regard to
/// ASCII case; `EXIT` is another name of `QUIT`.
pub open spec fn parse_command(line: Seq<char>) -> core::result::Result<CommandView, Seq<char>> {
    let l = trim_start(trim_newlines(line));
    if l.len() == 0 {
        Err("空命令"@)
    } else if byte_len(l) > MAX_LINE {
        Err(line_too_long_msg())
    } else {
        let name = upper(split_ws(l).0);
        let rest = trim_start(split_ws(l).1);
        if name == "SET"@ {
            parse_put_args(rest)
        } else if name == "SETEX"@ {
            parse_setex_args(rest)
        } else if name == "GET"@ {
            match single_key_arg("GET"@, rest) {
                Ok(key) => Ok(CommandView::Get { key }),
                Err(m) => Err(m),
            }
        } else if name == "DEL"@ {
            match single_key_arg("DEL"@, rest) {
                Ok(key) => Ok(CommandView::Del { key }),
                Err(m) => Err(m),
            }
        } else if name == "LIST"@ {
            no_arg_command("LIST"@, rest, CommandView::List)
        } else if name == "STATS"@ {
            no_arg_command("STATS"@, rest, CommandView::Stats)
        } else if name == "PING"@ {
            no_arg_command("PING"@, rest, CommandView::Ping)
        } else if name == "COMPACT"@ {
            no_arg_command("COMPACT"@, rest, CommandView::Compact)
        } else if name == "QUIT"@ || name == "EXIT"@ {
            no_arg_command("QUIT"@, rest, CommandView::Quit)
        } else {
            Err("未知命令: "@ + name)
        }
    }
}

/// Parses the single key argument of the command `name`.
fn single_key(name: &str, rest: &[char]) -> (r: Result<String>)
    ensures
        match r {
            Ok(k) => single_key_arg(name@, rest@) == Ok::<Seq<char>, Seq<char>>(k@),
            Err(e) => single_key_arg(name@, rest@) matches Err(m) && e@ == ErrorView::Protocol(m),
        },
{
    let (key, extra) = split_word(rest);
    if !is_blank(&extra) {
        return Err(protocol_error(concat2(name, " 只接受一个参数")));
    }
    match check_key(&key) {
        Err(e) => Err(e),
        Ok(()) => Ok(string_of(&key)),
    }
}

/// Accepts the command `cmd` named `name` when nothing follows the name.
fn no_arg(name: &str, rest: &[char], cmd: Command) -> (r: Result<Command>)
    ensures
        result_view(r) == lift(no_arg_command(name@, rest@, cmd@)),
{
    if is_blank(rest) {
        Ok(cmd)
    } else {
        Err(protocol_error(concat2(name, " 不接受参数")))
    }
}

fn parse_put(rest: &[char]) -> (r: Result<Command>)
    ensures
        result_view(r) == lift(parse_put_args(rest@)),
{
    let (key, v0) = split_word(rest);
    let value = trim_front(&v0);
    if let Err(e) = check_key(&key) {
        return Err(e);
    }
    if let Err(e) = check_value(&value) {
        return Err(e);
    }
    Ok(Command::Put { key: string_of(&key), value: string_of(&value) })
}

fn parse_setex(rest: &[char]) -> (r: Result<Command>)
    ensures
        result_view(r) == lift(parse_setex_args(rest@)),
{
    let (key, r1) = split_word(rest);
    let after_key = trim_front(&r1);
    let (ttl, v0) = split_word(&after_key);
    let value = trim_front(&v0);
    if let Err(e) = check_key(&key) {
        return Err(e);
    }
    if let Err(e) = check_value(&value) {
        return Err(e);
    }
    match parse_u64(&ttl) {
        None => Err(protocol_error(text2("过期时间必须是正整数秒: ", &ttl))),
        Some(t) => {
            if t == 0 {
                Err(protocol_error(String::from_str("过期时间必须大于 0")))
            } else {
                Ok(Command::SetEx { key: string_of(&key), ttl_secs: t, value: string_of(&value) })
            }
        },
    }
}

impl Command {
    /// Parses one request line, checking it as it goes; see [`parse_command`].
    pub fn parse(line: &str) -> (r: Result<Command>)
        ensures
            result_view(r) == lift(parse_command(line@)),
    {
        let cs = chars_of(line);
        let t = trim_line_end(&cs);
        let l = trim_front(&t);
        if l.len() == 0 {
            return Err(protocol_error(String::from_str("空命令")));
        }
        if longer_than(&l, MAX_LINE) {
            return Err(protocol_error(limit_text("命令超长，上限 ", MAX_LINE)));
        }
        let (name, rest0) = split_word(&l);
        let rest = trim_front(&rest0);
        let up = to_upper(&name);
        if eq_lit(&up, "SET") {
            parse_put(&rest)
        } else if eq_lit(&up, "SETEX") {
            parse_setex(&rest)
        } else if eq_lit(&up, "GET") {
            match single_key("GET", &rest) {
                Ok(key) => Ok(Command::Get { key }),
                Err(e) => Err(e),
            }
        } else if eq_lit(&up, "DEL") {
            match single_key("DEL", &rest) {
                Ok(key) => Ok(Command::Del { key }),
                Err(e) => Err(e),
            }
        } else if eq_lit(&up, "LIST") {
            no_arg("LIST", &rest, Command::List)
        } else if eq_lit(&up, "STATS") {
            no_arg("STATS", &rest, Command::Stats)
        } else if eq_lit(&up, "PING") {
            no_arg("PING", &rest, Command::Ping)
        } else if eq_lit(&up, "COMPACT") {
            no_arg("COMPACT", &rest, Command::Compact)
        } else if eq_lit(&up, "QUIT") || eq_lit(&up, "EXIT") {
            no_arg("QUIT", &rest, Command::Quit)
        } else {
            Err(protocol_error(text2("未知命令: ", &up)))
        }
    }
}

} // verus!

verus! {

/// The request line of a command (without the line break).
pub open spec fn encode_command(c: CommandView) -> Seq<char> {
    match c {
        CommandView::Put { key, value } => "SET "@ + key + " "@ + value,
        CommandView::SetEx { key, ttl_secs, value } => "SETEX "@ + key + " "@ + dec(
            ttl_secs as nat,
        ) + " "@ + value,
        CommandView::Get { key } => "GET "@ + key,
        CommandView::Del { key } => "DEL "@ + key,
        CommandView::List => "LIST"@,
        CommandView::Stats => "STATS"@,
        CommandView::Ping => "PING"@,
        CommandView::Compact => "COMPACT"@,
        CommandView::Quit => "QUIT"@,
    }
}

impl Command {
    /// The request line of this command, without the line break; see [`encode_command`].
    pub fn encode(&self) -> (r: String)
        ensures
            r@ == encode_command(self@),
    {
        match self {
            Command::Put { key, value } => {
                let mut r = String::from_str("SET ");
                r.append(key.as_str());
                r.append(" ");
                r.append(value.as_str());
                r
            },
            Command::SetEx { key, ttl_secs, value } => {
                let mut r = String::from_str("SETEX ");
                r.append(key.as_str());
                r.append(" ");
                push_decimal(&mut r, *ttl_secs);
                r.append(" ");
                r.append(value.as_str());
                r
            },
            Command::Get { key } => {
                let mut r = String::from_str("GET ");
                r.append(key.as_str());
                r
            },
            Command::Del { key } => {
                let mut r = String::from_str("DEL ");
                r.append(key.as_str());
                r
            },
            Command::List => String::from_str("LIST"),
            Command::Stats => String::from_str("STATS"),
            Command::Ping => String::from_str("PING"),
            Command::Compact => String::from_str("COMPACT"),
            Command::Quit => String::from_str("QUIT"),
        }
    }
}

/// The response line of a response (without the line break).
pub open spec fn encode_response(r: ResponseView) -> Seq<char> {
    match r {
        ResponseView::Done => "OK"@,
        ResponseView::Value(v) => "VALUE "@ + v,
        ResponseView::NotFound => "NOT_FOUND"@,
        ResponseView::Keys(ks) => if ks.len() == 0 {
            "KEYS"@
        } else {
            "KEYS "@ + join(ks, " "@)
        },
        ResponseView::Stats(s) => "STATS keys="@ + dec(s.keys as nat) + " clients="@ + dec(
            s.clients as nat,
        ) + " uptime_secs="@ + dec(s.uptime_secs as nat),
        ResponseView::Pong => "PONG"@,
        ResponseView::Bye => "BYE"@,
        ResponseView::Failure(m) => "ERR "@ + m,
    }
}

/// The numbered lines "1) k1", "2) k2", ... of a key list.
pub open spec fn numbered(ks: Seq<Seq<char>>) -> Seq<Seq<char>> {
    Seq::new(ks.len(), |i: int| dec((i + 1) as nat) + ") "@ + ks[i])
}

/// The text a user is shown for a response.
pub open spec fn display_response(r: ResponseView) -> Seq<char> {
    match r {
        ResponseView::Done => "OK"@,
        ResponseView::Value(v) => v,
        ResponseView::NotFound => "(空) 键不存在"@,
        ResponseView::Keys(ks) => if ks.len() == 0 {
            "(空) 暂无数据"@
        } else {
            join(numbered(ks), "\n"@)
        },
        ResponseView::Stats(s) => "键数量: "@ + dec(s.keys as nat) + "  在线连接: "@ + dec(
            s.clients as nat,
        ) + "  运行时长: "@ + dec(s.uptime_secs as nat) + "s"@,
        ResponseView::Pong => "PONG"@,
        ResponseView::Bye => "已断开连接"@,
        ResponseView::Failure(m) => "错误: "@ + m,
    }
}

impl Response {
    /// The response line of this response, without the line break; see [`encode_response`].
    pub fn encode(&self) -> (r: String)
        ensures
            r@ == encode_response(self@),
    {
        match self {
            Response::Done => String::from_str("OK"),
            Response::Value(v) => {
                let mut r = String::from_str("VALUE ");
                r.append(v.as_str());
                r
            },
            Response::NotFound => String::from_str("NOT_FOUND"),
            Response::Keys(keys) => {
                if keys.len() == 0 {
                    String::from_str("KEYS")
                } else {
                    let mut r = String::from_str("KEYS ");
                    push_joined(&mut r, keys, " ");
                    r
                }
            },
            Response::Stats(s) => {
                let mut r = String::from_str("STATS keys=");
                push_decimal(&mut r, s.keys as u64);
                r.append(" clients=");
                push_decimal(&mut r, s.clients as u64);
                r.append(" uptime_secs=");
                push_decimal(&mut r, s.uptime_secs);
                r
            },
            Response::Pong => String::from_str("PONG"),
            Response::Bye => String::from_str("BYE"),
            Response::Failure(m) => {
                let mut r = String::from_str("ERR ");
                r.append(m.as_str());
                r
            },
        }
    }

    /// The text a user is shown for this response; see [`display_response`].
    pub fn display(&self) -> (r: String)
        ensures
            r@ == display_response(self@),
    {
        match self {
            Response::Done => String::from_str("OK"),
            Response::Value(v) => v.clone(),
            Response::NotFound => String::from_str("(空) 键不存在"),
            Response::Keys(keys) => {
                if keys.len() == 0 {
                    String::from_str("(空) 暂无数据")
                } else {
                    let mut r = String::new();
                    let ghost ks = views(keys@);
                    let mut i: usize = 0;
                    while i < keys.len()
                        invariant
                            i <= keys.len(),
                            ks == views(keys@),
                            r@ == join(numbered(ks).subrange(0, i as int), "\n"@),
                        decreases keys.len() - i,
                    {
                        let ghost pre = r@;
                        if i > 0 {
                            r.append("\n");
                        }
                        push_decimal(&mut r, (i + 1) as u64);
                        r.append(") ");
                        r.append(keys[i].as_str());
                        i = i + 1;
                        proof {
                            let ns = numbered(ks).subrange(0, i as int);
                            assert(ns.drop_last() =~= numbered(ks).subrange(0, i - 1));
                            assert(ns.last() == dec(i as nat) + ") "@ + ks[i - 1]);
                            if i == 1 {
                                assert(numbered(ks).subrange(0, 0) =~= Seq::<Seq<char>>::empty());
                                assert(r@ =~= join(ns, "\n"@));
                            } else {
                                assert(r@ =~= join(ns, "\n"@));
                            }
                        }
                    }
                    assert(numbered(ks).subrange(0, keys.len() as int) =~= numbered(ks));
                    r
                }
            },
            Response::Stats(s) => {
                let mut r = String::from_str("键数量: ");
                push_decimal(&mut r, s.keys as u64);
                r.append("  在线连接: ");
                push_decimal(&mut r, s.clients as u64);
                r.append("  运行时长: ");
                push_decimal(&mut r, s.uptime_secs);
                r.append("s");
                r
            },
            Response::Pong => String::from_str("PONG"),
            Response::Bye => String::from_str("已断开连接"),
            Response::Failure(m) => {
                let mut r = String::from_str("错误: ");
                r.append(m.as_str());
                r
            },
        }
    }
}

} // verus!

verus! {

/// The fields of a `STATS` response read so far.
pub struct StatsFields {
    pub keys: Option<nat>,
    pub clients: Option<nat>,
    pub uptime_secs: Option<nat>,
}

/// Reads the value of a field that must occur once and parse as a number up to `max`.
pub open spec fn unique_field(slot: Option<nat>, name: Seq<char>, value: Seq<char>, max: nat) -> core::result::Result<
    Option<nat>,
    Seq<char>,
> {
    if slot is Some {
        Err("STATS 字段重复: "@ + name)
    } else {
        match parse_uint(value, max) {
            None => Err("STATS 字段值非法: "@ + name + "="@ + value),
            Some(v) => Ok(Some(v)),
        }
    }
}

/// Reads one `name=value` field of a `STATS` response.
pub open spec fn stats_field(acc: StatsFields, field: Seq<char>) -> core::result::Result<
    StatsFields,
    Seq<char>,
> {
    let eq = find_from(field, '=', 0);
    if eq >= field.len() {
        Err("STATS 字段格式非法: "@ + field)
    } else {
        let name = field.subrange(0, eq);
        let value = field.subrange(eq + 1, field.len() as int);
        if name == "keys"@ {
            match unique_field(acc.keys, name, value, usize::MAX as nat) {
                Err(m) => Err(m),
                Ok(v) => Ok(StatsFields { keys: v, ..acc }),
            }
        } else if name == "clients"@ {
            match unique_field(acc.clients, name, value, usize::MAX as nat) {
                Err(m) => Err(m),
                Ok(v) => Ok(StatsFields { clients: v, ..acc }),
            }
        } else if name == "uptime_secs"@ {
            match unique_field(acc.uptime_secs, name, value, u64::MAX as nat) {
                Err(m) => Err(m),
                Ok(v) => Ok(StatsFields { uptime_secs: v, ..acc }),
            }
        } else {
            Err("STATS 包含未知字段: "@ + name)
        }
    }
}

/// Reads the fields `fields[i..]` in order.
pub open spec fn stats_fields_from(fields: Seq<Seq<char>>, i: int, acc: StatsFields) -> core::result::Result<
    StatsFields,
    Seq<char>,
>
    decreases fields.len() - i,
{
    if i < 0 || i >= fields.len() {
        Ok(acc)
    } else {
        match stats_field(acc, fields[i]) {
            Err(m) => Err(m),
            Ok(a) => stats_fields_from(fields, i + 1, a),
        }
    }
}

/// The body of a `STATS` response: each of `keys`, `clients` and `uptime_secs` exactly once,
/// each with a valid number, and no other field.
pub open spec fn parse_stats_body(s: Seq<char>) -> core::result::Result<ServerStats, Seq<char>> {
    match stats_fields_from(words(s), 0, StatsFields { keys: None, clients: None, uptime_secs: None }) {
        Err(m) => Err(m),
        Ok(acc) => if acc.keys is None {
            Err("STATS 缺少 keys 字段"@)
        } else if acc.clients is None {
            Err("STATS 缺少 clients 字段"@)
        } else if acc.uptime_secs is None {
            Err("STATS 缺少 uptime_secs 字段"@)
        } else {
            Ok(
                ServerStats {
                    keys: acc.keys->0 as usize,
                    clients: acc.clients->0 as usize,
                    uptime_secs: acc.uptime_secs->0 as u64,
                },
            )
        },
    }
}

/// A response that carries nothing after its tag.
pub open spec fn bare_response(tag: Seq<char>, rest: Seq<char>, r: ResponseView) -> core::result::Result<
    ResponseView,
    Seq<char>,
> {
    if rest.len() == 0 {
        Ok(r)
    } else {
        Err(tag + " 响应不应包含额外内容"@)
    }
}

/// The response a response line stands for, or why it stands for none.
pub open spec fn parse_response(line: Seq<char>) -> core::result::Result<ResponseView, Seq<char>> {
    let l = trim_newlines(line);
    let tag = split_ws(l).0;
    let rest = trim_start(split_ws(l).1);
    if tag == "OK"@ {
        bare_response("OK"@, rest, ResponseView::Done)
    } else if tag == "VALUE"@ {
        if rest.len() > 0 {
            Ok(ResponseView::Value(rest))
        } else {
            Err("VALUE 响应缺少值"@)
        }
    } else if tag == "NOT_FOUND"@ {
        bare_response("NOT_FOUND"@, rest, ResponseView::NotFound)
    } else if tag == "KEYS"@ {
        Ok(ResponseView::Keys(words(rest)))
    } else if tag == "STATS"@ {
        match parse_stats_body(rest) {
            Ok(s) => Ok(ResponseView::Stats(s)),
            Err(m) => Err(m),
        }
    } else if tag == "PONG"@ {
        bare_response("PONG"@, rest, ResponseView::Pong)
    } else if tag == "BYE"@ {
        bare_response("BYE"@, rest, ResponseView::Bye)
    } else if tag == "ERR"@ {
        if rest.len() > 0 {
            Ok(ResponseView::Failure(rest))
        } else {
            Err("ERR 响应缺少错误信息"@)
        }
    } else {
        Err("无法识别的响应: "@ + tag)
    }
}

/// Reads the value of a field that must occur once and parse as a number up to `max`.
fn parse_unique_field(slot: &mut Option<u64>, name: &[char], value: &[char], max: u64) -> (r: Result<()>)
    ensures
        ({
            let expected = unique_field(opt_nat(*old(slot)), name@, value@, max as nat);
            match r {
                Ok(_) => expected == Ok::<Option<nat>, Seq<char>>(opt_nat(*final(slot))),
                Err(e) => expected matches Err(m) && e@ == ErrorView::Protocol(m),
            }
        }),
        r is Err ==> *final(slot) == *old(slot),
{
    if slot.is_some() {
        return Err(protocol_error(text2("STATS 字段重复: ", name)));
    }
    match parse_u64(value) {
        Some(v) => {
            if v <= max {
                *slot = Some(v);
                Ok(())
            } else {
                Err(protocol_error(field_value_error(name, value)))
            }
        },
        None => {
            proof {
                assert(parse_uint(value@, max as nat) is None);
            }
            Err(protocol_error(field_value_error(name, value)))
        },
    }
}

fn field_value_error(name: &[char], value: &[char]) -> (r: String)
    ensures
        r@ == "STATS 字段值非法: "@ + name@ + "="@ + value@,
{
    let mut r = text2("STATS 字段值非法: ", name);
    r.append("=");
    let v = string_of(value);
    r.append(v.as_str());
    r
}

/// An optional machine number as an optional mathematical number.
pub open spec fn opt_nat(o: Option<u64>) -> Option<nat> {
    match o {
        Some(v) => Some(v as nat),
        None => None,
    }
}

/// Parses the body of a `STATS` response; see [`parse_stats_body`].
fn parse_stats(s: &[char]) -> (r: Result<ServerStats>)
    ensures
        match r {
            Ok(st) => parse_stats_body(s@) == Ok::<ServerStats, Seq<char>>(st),
            Err(e) => parse_stats_body(s@) matches Err(m) && e@ == ErrorView::Protocol(m),
        },
{
    let fields = split_words(s);
    let ghost fs = words(s@);
    let mut keys: Option<u64> = None;
    let mut clients: Option<u64> = None;
    let mut uptime_secs: Option<u64> = None;
    let ghost init = StatsFields { keys: None, clients: None, uptime_secs: None };
    let mut i: usize = 0;
    while i < fields.len()
        invariant
            i <= fields.len(),
            fs == words(s@),
            init == (StatsFields { keys: None, clients: None, uptime_secs: None }),
            views(fields@) == fs,
            stats_fields_from(fs, 0, init) == stats_fields_from(
                fs,
                i as int,
                StatsFields { keys: opt_nat(keys), clients: opt_nat(clients), uptime_secs: opt_nat(uptime_secs) },
            ),
            keys matches Some(k) ==> k <= usize::MAX,
            clients matches Some(c) ==> c <= usize::MAX,
        decreases fields.len() - i,
    {
        let field = chars_of(fields[i].as_str());
        let ghost acc = StatsFields {
            keys: opt_nat(keys),
            clients: opt_nat(clients),
            uptime_secs: opt_nat(uptime_secs),
        };
        assert(field@ == fs[i as int]);
        let eq = find_char(&field, '=', 0);
        proof {
            lemma_find_from(field@, '=', 0);
        }
        assert(fs.len() == fields@.len());
        if eq >= field.len() {
            assert(stats_fields_from(fs, i as int, acc) == stats_field(acc, fs[i as int]));
            return Err(protocol_error(text2("STATS 字段格式非法: ", &field)));
        }
        let name = slice_chars(&field, 0, eq);
        let value = slice_chars(&field, eq + 1, field.len());
        if eq_lit(&name, "keys") {
            if let Err(e) = parse_unique_field(&mut keys, &name, &value, usize::MAX as u64) {
                return Err(e);
            }
        } else if eq_lit(&name, "clients") {
            if let Err(e) = parse_unique_field(&mut clients, &name, &value, usize::MAX as u64) {
                return Err(e);
            }
        } else if eq_lit(&name, "uptime_secs") {
            if let Err(e) = parse_unique_field(&mut uptime_secs, &name, &value, u64::MAX) {
                return Err(e);
            }
        } else {
            assert(stats_fields_from(fs, i as int, acc) == stats_field(acc, fs[i as int]));
            return Err(protocol_error(text2("STATS 包含未知字段: ", &name)));
        }
        i = i + 1;
    }
    match (keys, clients, uptime_secs) {
        (None, _, _) => Err(protocol_error(String::from_str("STATS 缺少 keys 字段"))),
        (Some(_), None, _) => Err(protocol_error(String::from_str("STATS 缺少 clients 字段"))),
        (Some(_), Some(_), None) => Err(
            protocol_error(String::from_str("STATS 缺少 uptime_secs 字段")),
        ),
        (Some(k), Some(c), Some(u)) => Ok(
            ServerStats { keys: k as usize, clients: c as usize, uptime_secs: u },
        ),
    }
}

/// A response with nothing after its tag.
fn response_no_arg(tag: &str, rest: &[char], response: Response) -> (r: Result<Response>)
    ensures
        result_view(r) == lift(bare_response(tag@, rest@, response@)),
{
    if rest.len() == 0 {
        Ok(response)
    } else {
        Err(protocol_error(concat2(tag, " 响应不应包含额外内容")))
    }
}

impl Response {
    /// Parses one response line; see [`parse_response`].
    pub fn parse(line: &str) -> (r: Result<Response>)
        ensures
            result_view(r) == lift(parse_response(line@)),
    {
        let cs = chars_of(line);
        let l = trim_line_end(&cs);
        let (tag, rest0) = split_word(&l);
        let rest = trim_front(&rest0);
        if eq_lit(&tag, "OK") {
            response_no_arg("OK", &rest, Response::Done)
        } else if eq_lit(&tag, "VALUE") {
            if rest.len() > 0 {
                Ok(Response::Value(string_of(&rest)))
            } else {
                Err(protocol_error(String::from_str("VALUE 响应缺少值")))
            }
        } else if eq_lit(&tag, "NOT_FOUND") {
            response_no_arg("NOT_FOUND", &rest, Response::NotFound)
        } else if eq_lit(&tag, "KEYS") {
            Ok(Response::Keys(split_words(&rest)))
        } else if eq_lit(&tag, "STATS") {
            match parse_stats(&rest) {
                Ok(s) => Ok(Response::Stats(s)),
                Err(e) => Err(e),
            }
        } else if eq_lit(&tag, "PONG") {
            response_no_arg("PONG", &rest, Response::Pong)
        } else if eq_lit(&tag, "BYE") {
            response_no_arg("BYE", &rest, Response::Bye)
        } else if eq_lit(&tag, "ERR") {
            if rest.len() > 0 {
                Ok(Response::Failure(string_of(&rest)))
            } else {
                Err(protocol_error(String::from_str("ERR 响应缺少错误信息")))
            }
        } else {
            Err(protocol_error(text2("无法识别的响应: ", &tag)))
        }
    }
}

} // verus!

verus! {

/// A non-empty word of ASCII capital letters, such as a command name.
pub open spec fn is_upper_word(s: Seq<char>) -> bool {
    s.len() > 0 && forall|i: int| 0 <= i < s.len() ==> 'A' <= #[trigger] s[i] && s[i] <= 'Z'
}

proof fn lemma_upper_word(s: Seq<char>)
    requires
        is_upper_word(s),
    ensures
        !has_ws(s),
        upper(s) == s,
        !is_ws(s[0]),
{
    assert forall|i: int| 0 <= i < s.len() implies !is_ws(#[trigger] s[i]) by {
        assert('A' <= s[i] && s[i] <= 'Z');
    }
    assert(upper(s) =~= s);
}

/// A line made of a command name and arguments that are empty or start with whitespace.
proof fn lemma_line_head(name: Seq<char>, args: Seq<char>)
    requires
        is_upper_word(name),
        args.len() == 0 || is_ws(args[0]),
    ensures
        trim_start(name + args) == name + args,
        split_ws(name + args) == (name, args),
        upper(split_ws(name + args).0) == name,
{
    lemma_upper_word(name);
    let l = name + args;
    assert(l[0] == name[0]);
    assert(skip_ws_from(l, 0) == 0);
    assert(l.subrange(0, l.len() as int) =~= l);
    if args.len() == 0 {
        assert(l =~= name);
        lemma_split_ws_word(name);
    } else {
        lemma_split_ws_concat(name, args);
    }
}

/// Every character takes at least one byte.
proof fn lemma_byte_len_at_least_len(s: Seq<char>)
    ensures
        byte_len(s) >= s.len(),
    decreases s.len(),
{
    if s.len() > 0 {
        lemma_byte_len_at_least_len(s.drop_last());
    }
}

/// The commands that [`parse_command`] can produce: valid keys and values, a value that does
/// not start with whitespace (leading whitespace is part of the separator), a positive time
/// to live.
pub open spec fn command_is_valid(c: CommandView) -> bool {
    match c {
        CommandView::Put { key, value } => key_error(key) is None && value_error(value) is None
            && !is_ws(value[0]),
        CommandView::SetEx { key, ttl_secs, value } => key_error(key) is None && value_error(
            value,
        ) is None && !is_ws(value[0]) && ttl_secs > 0,
        CommandView::Get { key } => key_error(key) is None,
        CommandView::Del { key } => key_error(key) is None,
        _ => true,
    }
}

proof fn lemma_key_facts(key: Seq<char>)
    requires
        key_error(key) is None,
    ensures
        key.len() > 0,
        !has_ws(key),
        !is_ws(key[0]),
        byte_len(key) <= MAX_KEY,
        key.last() != '\r',
        key.last() != '\n',
{
    assert(!is_ws(key[0]));
    assert(!is_ws(key[key.len() - 1]));
}

proof fn lemma_value_facts(value: Seq<char>)
    requires
        value_error(value) is None,
    ensures
        value.len() > 0,
        byte_len(value) <= MAX_VALUE,
        value.last() != '\r',
        value.last() != '\n',
{
    if value.last() == '\r' {
        assert(value.contains('\r'));
    }
    if value.last() == '\n' {
        assert(value.contains('\n'));
    }
}

/// The characters of the command words and prefixes of request lines.
proof fn lemma_command_words()
    ensures
        "SET"@ == seq!['S', 'E', 'T'],
        "SETEX"@ == seq!['S', 'E', 'T', 'E', 'X'],
        "GET"@ == seq!['G', 'E', 'T'],
        "DEL"@ == seq!['D', 'E', 'L'],
        "LIST"@ == seq!['L', 'I', 'S', 'T'],
        "STATS"@ == seq!['S', 'T', 'A', 'T', 'S'],
        "PING"@ == seq!['P', 'I', 'N', 'G'],
        "COMPACT"@ == seq!['C', 'O', 'M', 'P', 'A', 'C', 'T'],
        "QUIT"@ == seq!['Q', 'U', 'I', 'T'],
        "EXIT"@ == seq!['E', 'X', 'I', 'T'],
        " "@ == seq![' '],
        "SET "@ == seq!['S', 'E', 'T', ' '],
        "SETEX "@ == seq!['S', 'E', 'T', 'E', 'X', ' '],
        "GET "@ == seq!['G', 'E', 'T', ' '],
        "DEL "@ == seq!['D', 'E', 'L', ' '],
{
    reveal_strlit("SET");
    reveal_strlit("SETEX");
    reveal_strlit("GET");
    reveal_strlit("DEL");
    reveal_strlit("LIST");
    reveal_strlit("STATS");
    reveal_strlit("PING");
    reveal_strlit("COMPACT");
    reveal_strlit("QUIT");
    reveal_strlit("EXIT");
    reveal_strlit(" ");
    reveal_strlit("SET ");
    reveal_strlit("SETEX ");
    reveal_strlit("GET ");
    reveal_strlit("DEL ");
    assert("SET"@ =~= seq!['S', 'E', 'T']);
    assert("SETEX"@ =~= seq!['S', 'E', 'T', 'E', 'X']);
    assert("GET"@ =~= seq!['G', 'E', 'T']);
    assert("DEL"@ =~= seq!['D', 'E', 'L']);
    assert("LIST"@ =~= seq!['L', 'I', 'S', 'T']);
    assert("STATS"@ =~= seq!['S', 'T', 'A', 'T', 'S']);
    assert("PING"@ =~= seq!['P', 'I', 'N', 'G']);
    assert("COMPACT"@ =~= seq!['C', 'O', 'M', 'P', 'A', 'C', 'T']);
    assert("QUIT"@ =~= seq!['Q', 'U', 'I', 'T']);
    assert("EXIT"@ =~= seq!['E', 'X', 'I', 'T']);
    assert(" "@ =~= seq![' ']);
    assert("SET "@ =~= seq!['S', 'E', 'T', ' ']);
    assert("SETEX "@ =~= seq!['S', 'E', 'T', 'E', 'X', ' ']);
    assert("GET "@ =~= seq!['G', 'E', 'T', ' ']);
    assert("DEL "@ =~= seq!['D', 'E', 'L', ' ']);
}

/// The round trip of a `SET` line.
proof fn lemma_put_roundtrip(c: CommandView)
    requires
        command_is_valid(c),
        c is Put,
    ensures
        parse_command(encode_command(c)) == Ok::<CommandView, Seq<char>>(c),
{
    lemma_command_words();
    let line = encode_command(c);
    assert(is_ws(' '));
    assert(" "@ =~= seq![' ']);
    match c {
        CommandView::Put { key, value } => {
            lemma_key_facts(key);
            lemma_value_facts(value);
            let args = " "@ + key + " "@ + value;
            assert(line =~= "SET"@ + args);
            assert(is_upper_word("SET"@));
            lemma_line_head("SET"@, args);
            assert(line.last() == value.last());
            lemma_trim_newlines_none(line);
            lemma_byte_len_concat("SET"@, args);
            lemma_byte_len_concat(" "@ + key + " "@, value);
            lemma_byte_len_concat(" "@ + key, " "@);
            lemma_byte_len_concat(" "@, key);
            lemma_byte_len_bound("SET"@);
            lemma_byte_len_bound(" "@);
            let rest = key + (" "@ + value);
            assert(args =~= " "@ + rest);
            lemma_trim_start_space(rest);
            lemma_split_ws_concat(key, " "@ + value);
            lemma_trim_start_space(value);
            assert(trim_newlines(line) == line);
            assert(trim_start(line) == line);
            assert(byte_len(line) <= MAX_LINE);
            assert(upper(split_ws(line).0) == "SET"@);
            assert(trim_start(split_ws(line).1) == rest);
            assert(parse_put_args(rest) == Ok::<CommandView, Seq<char>>(c));
            assert("SET"@ != "SETEX"@);
        },
        _ => {},
    }
}

/// The round trip of a `SETEX` line.
proof fn lemma_setex_roundtrip(c: CommandView)
    requires
        command_is_valid(c),
        c is SetEx,
    ensures
        parse_command(encode_command(c)) == Ok::<CommandView, Seq<char>>(c),
{
    lemma_command_words();
    let line = encode_command(c);
    assert(is_ws(' '));
    assert(" "@ =~= seq![' ']);
    match c {
        CommandView::SetEx { key, ttl_secs, value } => {
            lemma_key_facts(key);
            lemma_value_facts(value);
            lemma_dec(ttl_secs as nat);
            lemma_dec_len_u64(ttl_secs as nat);
            let d = dec(ttl_secs as nat);
            let args = " "@ + key + " "@ + d + " "@ + value;
            assert(line =~= "SETEX"@ + args);
            assert(is_upper_word("SETEX"@));
            lemma_line_head("SETEX"@, args);
            assert(line.last() == value.last());
            lemma_trim_newlines_none(line);
            lemma_byte_len_concat("SETEX"@, args);
            lemma_byte_len_concat(" "@ + key + " "@ + d + " "@, value);
            lemma_byte_len_concat(" "@ + key + " "@ + d, " "@);
            lemma_byte_len_concat(" "@ + key + " "@, d);
            lemma_byte_len_concat(" "@ + key, " "@);
            lemma_byte_len_concat(" "@, key);
            lemma_byte_len_bound("SETEX"@);
            lemma_byte_len_bound(" "@);
            lemma_byte_len_bound(d);
            let rest = key + (" "@ + (d + (" "@ + value)));
            assert(args =~= " "@ + rest);
            lemma_trim_start_space(rest);
            lemma_split_ws_concat(key, " "@ + (d + (" "@ + value)));
            lemma_trim_start_space(d + (" "@ + value));
            assert((d + (" "@ + value))[0] == d[0]);
            lemma_split_ws_concat(d, " "@ + value);
            lemma_trim_start_space(value);
            lemma_parse_dec(ttl_secs as nat, u64::MAX as nat);
            assert("SETEX"@ != "SET"@);
        },
        _ => {},
    }
}

/// The round trip of a `GET` line.
proof fn lemma_get_roundtrip(c: CommandView)
    requires
        command_is_valid(c),
        c is Get,
    ensures
        parse_command(encode_command(c)) == Ok::<CommandView, Seq<char>>(c),
{
    lemma_command_words();
    let line = encode_command(c);
    assert(is_ws(' '));
    assert(" "@ =~= seq![' ']);
    match c {
        CommandView::Get { key } => {
            lemma_key_facts(key);
            let args = " "@ + key;
            assert(line =~= "GET"@ + args);
            assert(is_upper_word("GET"@));
            lemma_line_head("GET"@, args);
            assert(line.last() == key.last());
            lemma_trim_newlines_none(line);
            lemma_byte_len_concat("GET"@, args);
            lemma_byte_len_concat(" "@, key);
            lemma_byte_len_bound("GET"@);
            lemma_byte_len_bound(" "@);
            lemma_trim_start_space(key);
            lemma_split_ws_word(key);
            assert(all_ws(Seq::<char>::empty()));
            assert("GET"@ != "SET"@);
            assert("GET"@ != "SETEX"@);
        },
        _ => {},
    }
}

/// The round trip of a `DEL` line.
proof fn lemma_del_roundtrip(c: CommandView)
    requires
        command_is_valid(c),
        c is Del,
    ensures
        parse_command(encode_command(c)) == Ok::<CommandView, Seq<char>>(c),
{
    lemma_command_words();
    let line = encode_command(c);
    assert(is_ws(' '));
    assert(" "@ =~= seq![' ']);
    match c {
        CommandView::Del { key } => {
            lemma_key_facts(key);
            let args = " "@ + key;
            assert(line =~= "DEL"@ + args);
            assert(is_upper_word("DEL"@));
            lemma_line_head("DEL"@, args);
            assert(line.last() == key.last());
            lemma_trim_newlines_none(line);
            lemma_byte_len_concat("DEL"@, args);
            lemma_byte_len_concat(" "@, key);
            lemma_byte_len_bound("DEL"@);
            lemma_byte_len_bound(" "@);
            lemma_trim_start_space(key);
            lemma_split_ws_word(key);
            assert(all_ws(Seq::<char>::empty()));
            assert("DEL"@ != "SET"@);
            assert("DEL"@ != "SETEX"@);
            assert("DEL"@ != "GET"@);
        },
        _ => {},
    }
}

/// The round trip of a command without arguments.
proof fn lemma_bare_command_roundtrip(c: CommandView)
    requires
    command_is_valid(c),
    !(c is Put || c is SetEx || c is Get || c is Del),
    ensures
    parse_command(encode_command(c)) == Ok::<CommandView, Seq<char>>(c),
{
    lemma_command_words();
    let line = encode_command(c);
    assert(is_ws(' '));
    assert(" "@ =~= seq![' ']);
    assert(is_upper_word(line)) by {
        assert(is_upper_word("LIST"@));
        assert(is_upper_word("STATS"@));
        assert(is_upper_word("PING"@));
        assert(is_upper_word("COMPACT"@));
        assert(is_upper_word("QUIT"@));
    }
    assert(line + Seq::<char>::empty() =~= line);
    lemma_line_head(line, Seq::<char>::empty());
    lemma_trim_newlines_none(line);
    lemma_byte_len_bound(line);
    lemma_trim_start_space(Seq::<char>::empty());
    assert(all_ws(Seq::<char>::empty()));
    assert(line != "SET"@);
    assert(line != "SETEX"@);
    assert(line != "GET"@);
    assert(line != "DEL"@);
    assert(c is Quit ==> line != "LIST"@ && line != "STATS"@ && line != "PING"@ && line
        != "COMPACT"@);
    assert(c is Compact ==> line != "LIST"@ && line != "STATS"@ && line != "PING"@);
    assert(c is Ping ==> line != "LIST"@ && line != "STATS"@);
    assert(c is Stats ==> line != "LIST"@);
}

/// Encoding a valid command and parsing the line gives the command back.
pub proof fn lemma_command_roundtrip(c: CommandView)
    requires
        command_is_valid(c),
    ensures
        parse_command(encode_command(c)) == Ok::<CommandView, Seq<char>>(c),
{
    match c {
        CommandView::Put { .. } => lemma_put_roundtrip(c),
        CommandView::SetEx { .. } => lemma_setex_roundtrip(c),
        CommandView::Get { .. } => lemma_get_roundtrip(c),
        CommandView::Del { .. } => lemma_del_roundtrip(c),
        _ => lemma_bare_command_roundtrip(c),
    }
}

} // verus!

verus! {

/// Every command that a line parses to is valid.
pub proof fn lemma_parsed_command_is_valid(line: Seq<char>)
    ensures
        parse_command(line) matches Ok(c) ==> command_is_valid(c),
{
    let l = trim_start(trim_newlines(line));
    let rest = trim_start(split_ws(l).1);
    let r1 = split_ws(rest).1;
    lemma_skip_ws_from(r1, 0);
    let after_key = trim_start(r1);
    let v0 = split_ws(after_key).1;
    lemma_skip_ws_from(v0, 0);
}

/// Re-encoding the command of a line and parsing that gives the same command.
pub proof fn lemma_parse_encode_parse(line: Seq<char>)
    ensures
        parse_command(line) matches Ok(c) ==> parse_command(encode_command(c)) == Ok::<
            CommandView,
            Seq<char>,
        >(c),
{
    lemma_parsed_command_is_valid(line);
    if let Ok(c) = parse_command(line) {
        lemma_command_roundtrip(c);
    }
}

/// Text that survives a response line: non-empty, not starting with whitespace (which is
/// taken as the separator), not ending with a line break.
pub open spec fn is_line_text(v: Seq<char>) -> bool {
    v.len() > 0 && !is_ws(v[0]) && v.last() != '\r' && v.last() != '\n'
}

/// The responses that [`parse_response`] gives back unchanged.
pub open spec fn response_is_valid(r: ResponseView) -> bool {
    match r {
        ResponseView::Value(v) => is_line_text(v),
        ResponseView::Failure(m) => is_line_text(m),
        ResponseView::Keys(ks) => forall|i: int|
            0 <= i < ks.len() ==> (#[trigger] ks[i]).len() > 0 && !has_ws(ks[i]),
        _ => true,
    }
}

proof fn lemma_stats_field_text(name: Seq<char>, n: nat, max: nat)
    requires
        name.len() > 0,
        !name.contains('='),
        !has_ws(name),
        n <= max,
    ensures
        ({
            let f = name + "="@ + dec(n);
            &&& find_from(f, '=', 0) == name.len()
            &&& f.subrange(0, name.len() as int) == name
            &&& f.subrange(name.len() + 1int, f.len() as int) == dec(n)
            &&& !has_ws(f)
            &&& f.len() > 0
            &&& f.last() != '\r' && f.last() != '\n'
            &&& parse_uint(dec(n), max) == Some(n)
        }),
{
    reveal_strlit("=");
    let d = dec(n);
    lemma_dec(n);
    let f = name + "="@ + d;
    assert(f =~= name + ("="@ + d));
    lemma_find_concat(name, "="@ + d, '=');
    assert(("="@ + d)[0] == '=');
    assert(f.subrange(0, name.len() as int) =~= name);
    assert(f.subrange(name.len() + 1int, f.len() as int) =~= d);
    assert forall|i: int| 0 <= i < f.len() implies !is_ws(#[trigger] f[i]) by {
        if i < name.len() {
            assert(f[i] == name[i]);
        } else if i > name.len() {
            assert(f[i] == d[i - name.len() - 1]);
        }
    }
    assert(f.last() == d.last());
    assert(!is_ws(d[d.len() - 1]));
    lemma_parse_dec(n, max);
}

proof fn reveal_response_tags()
    ensures
        "OK"@ =~= seq!['O', 'K'],
        "VALUE"@ =~= seq!['V', 'A', 'L', 'U', 'E'],
        "NOT_FOUND"@ =~= seq!['N', 'O', 'T', '_', 'F', 'O', 'U', 'N', 'D'],
        "KEYS"@ =~= seq!['K', 'E', 'Y', 'S'],
        "STATS"@ =~= seq!['S', 'T', 'A', 'T', 'S'],
        "PONG"@ =~= seq!['P', 'O', 'N', 'G'],
        "BYE"@ =~= seq!['B', 'Y', 'E'],
        "ERR"@ =~= seq!['E', 'R', 'R'],
        " "@ =~= seq![' '],
{
    reveal_strlit("OK");
    reveal_strlit("VALUE");
    reveal_strlit("NOT_FOUND");
    reveal_strlit("KEYS");
    reveal_strlit("STATS");
    reveal_strlit("PONG");
    reveal_strlit("BYE");
    reveal_strlit("ERR");
    reveal_strlit(" ");
}

proof fn lemma_value_roundtrip(v: Seq<char>)
    requires
        is_line_text(v),
    ensures
        parse_response(encode_response(ResponseView::Value(v))) == Ok::<ResponseView, Seq<char>>(
            ResponseView::Value(v),
        ),
{
    reveal_response_tags();
    reveal_strlit("VALUE ");
    let line = encode_response(ResponseView::Value(v));
    assert(is_ws(' '));
    assert(line =~= "VALUE"@ + (seq![' '] + v));
    lemma_upper_word("VALUE"@);
    lemma_split_ws_concat("VALUE"@, seq![' '] + v);
    lemma_trim_start_space(v);
    assert(line.last() == v.last());
    lemma_trim_newlines_none(line);
    assert("VALUE"@ != "OK"@);
}

proof fn lemma_failure_roundtrip(m: Seq<char>)
    requires
        is_line_text(m),
    ensures
        parse_response(encode_response(ResponseView::Failure(m))) == Ok::<ResponseView, Seq<char>>(
            ResponseView::Failure(m),
        ),
{
    reveal_response_tags();
    reveal_strlit("ERR ");
    let line = encode_response(ResponseView::Failure(m));
    assert(is_ws(' '));
    assert(line =~= "ERR"@ + (seq![' '] + m));
    lemma_upper_word("ERR"@);
    lemma_split_ws_concat("ERR"@, seq![' '] + m);
    lemma_trim_start_space(m);
    assert(line.last() == m.last());
    lemma_trim_newlines_none(line);
    assert("ERR"@ != "OK"@);
    assert("ERR"@ != "VALUE"@);
    assert("ERR"@ != "NOT_FOUND"@);
    assert("ERR"@ != "KEYS"@);
    assert("ERR"@ != "STATS"@);
    assert("ERR"@ != "PONG"@);
    assert("ERR"@ != "BYE"@);
}

proof fn lemma_keys_roundtrip(ks: Seq<Seq<char>>)
    requires
        response_is_valid(ResponseView::Keys(ks)),
    ensures
        parse_response(encode_response(ResponseView::Keys(ks))) == Ok::<ResponseView, Seq<char>>(
            ResponseView::Keys(ks),
        ),
{
    reveal_response_tags();
    reveal_strlit("KEYS ");
    let line = encode_response(ResponseView::Keys(ks));
    assert(is_ws(' '));
    lemma_upper_word("KEYS"@);
    lemma_words_join(ks);
    if ks.len() == 0 {
        lemma_split_ws_word("KEYS"@);
        lemma_trim_newlines_none(line);
        assert(trim_start(Seq::<char>::empty()) =~= Seq::<char>::empty());
        assert(join(ks, seq![' ']) =~= Seq::<char>::empty());
    } else {
        let j = join(ks, seq![' ']);
        assert(line =~= "KEYS"@ + (seq![' '] + j));
        lemma_split_ws_concat("KEYS"@, seq![' '] + j);
        assert(ks[0].len() > 0 && ks[ks.len() - 1].len() > 0);
        lemma_join_ends(ks, seq![' ']);
        assert(!is_ws(ks[0][0]));
        assert(!is_ws(ks.last()[ks.last().len() - 1]));
        lemma_trim_start_space(j);
        assert(line.last() == j.last());
        lemma_trim_newlines_none(line);
    }
    assert("KEYS"@ != "OK"@);
    assert("KEYS"@ != "VALUE"@);
    assert("KEYS"@ != "NOT_FOUND"@);
}

/// The three `name=value` fields of a `STATS` line.
pub open spec fn stats_fields_text(s: ServerStats) -> Seq<Seq<char>> {
    seq![
        "keys"@ + "="@ + dec(s.keys as nat),
        "clients"@ + "="@ + dec(s.clients as nat),
        "uptime_secs"@ + "="@ + dec(s.uptime_secs as nat),
    ]
}

proof fn lemma_stats_fields_parse(s: ServerStats)
    ensures
        stats_fields_from(
            stats_fields_text(s),
            0,
            StatsFields { keys: None, clients: None, uptime_secs: None },
        ) == Ok::<StatsFields, Seq<char>>(
            StatsFields {
                keys: Some(s.keys as nat),
                clients: Some(s.clients as nat),
                uptime_secs: Some(s.uptime_secs as nat),
            },
        ),
{
    reveal_strlit("keys");
    reveal_strlit("clients");
    reveal_strlit("uptime_secs");
    reveal_strlit("=");
    let fs = stats_fields_text(s);
    lemma_stats_field_text("keys"@, s.keys as nat, usize::MAX as nat);
    lemma_stats_field_text("clients"@, s.clients as nat, usize::MAX as nat);
    lemma_stats_field_text("uptime_secs"@, s.uptime_secs as nat, u64::MAX as nat);
    let init = StatsFields { keys: None, clients: None, uptime_secs: None };
    let a1 = StatsFields { keys: Some(s.keys as nat), ..init };
    let a2 = StatsFields { clients: Some(s.clients as nat), ..a1 };
    let a3 = StatsFields { uptime_secs: Some(s.uptime_secs as nat), ..a2 };
    assert("keys"@ != "clients"@);
    assert("keys"@ != "uptime_secs"@);
    assert("clients"@ != "uptime_secs"@);
    assert(stats_field(init, fs[0]) == Ok::<StatsFields, Seq<char>>(a1));
    assert(stats_field(a1, fs[1]) == Ok::<StatsFields, Seq<char>>(a2));
    assert(stats_field(a2, fs[2]) == Ok::<StatsFields, Seq<char>>(a3));
    assert(stats_fields_from(fs, 3, a3) == Ok::<StatsFields, Seq<char>>(a3));
    assert(stats_fields_from(fs, 2, a2) == Ok::<StatsFields, Seq<char>>(a3));
    assert(stats_fields_from(fs, 1, a1) == Ok::<StatsFields, Seq<char>>(a3));
}

/// The text after `STATS ` in a `STATS` line.
pub open spec fn stats_body(s: ServerStats) -> Seq<char> {
    let fs = stats_fields_text(s);
    fs[0] + seq![' '] + fs[1] + seq![' '] + fs[2]
}

proof fn lemma_stats_literals()
    ensures
        "STATS keys="@ =~= "STATS"@ + seq![' '] + "keys"@ + "="@,
        " clients="@ =~= seq![' '] + "clients"@ + "="@,
        " uptime_secs="@ =~= seq![' '] + "uptime_secs"@ + "="@,
{
    reveal_strlit("STATS");
    reveal_strlit("STATS keys=");
    reveal_strlit(" clients=");
    reveal_strlit(" uptime_secs=");
    reveal_strlit("keys");
    reveal_strlit("clients");
    reveal_strlit("uptime_secs");
    reveal_strlit("=");
}

proof fn lemma_stats_words(s: ServerStats)
    ensures
        stats_body(s).len() > 0,
        !is_ws(stats_body(s)[0]),
        stats_body(s).last() != '\r',
        stats_body(s).last() != '\n',
        words(stats_body(s)) == stats_fields_text(s),
{
    reveal_strlit("keys");
    reveal_strlit("clients");
    reveal_strlit("uptime_secs");
    reveal_strlit("=");
    let fs = stats_fields_text(s);
    let fk = fs[0];
    let fc = fs[1];
    let fu = fs[2];
    lemma_stats_field_text("keys"@, s.keys as nat, usize::MAX as nat);
    lemma_stats_field_text("clients"@, s.clients as nat, usize::MAX as nat);
    lemma_stats_field_text("uptime_secs"@, s.uptime_secs as nat, u64::MAX as nat);
    let body = stats_body(s);
    assert(body[0] == fk[0]);
    assert(!is_ws(fk[0]));
    assert(body.last() == fu.last());
    lemma_words_single(fu);
    lemma_words_cons(fc, fu);
    assert(body =~= fk + seq![' '] + (fc + seq![' '] + fu));
    lemma_words_cons(fk, fc + seq![' '] + fu);
    assert(words(body) =~= fs);
}

proof fn lemma_stats_line(s: ServerStats)
    ensures
        encode_response(ResponseView::Stats(s)) == "STATS"@ + (seq![' '] + stats_body(s)),
        stats_body(s).len() > 0,
        !is_ws(stats_body(s)[0]),
        stats_body(s).last() != '\r',
        stats_body(s).last() != '\n',
        words(stats_body(s)) == stats_fields_text(s),
{
    lemma_stats_literals();
    lemma_stats_words(s);
    assert(encode_response(ResponseView::Stats(s)) =~= "STATS"@ + (seq![' '] + stats_body(s)));
}

proof fn lemma_stats_roundtrip(s: ServerStats)
    ensures
        parse_response(encode_response(ResponseView::Stats(s))) == Ok::<ResponseView, Seq<char>>(
            ResponseView::Stats(s),
        ),
{
    reveal_response_tags();
    let line = encode_response(ResponseView::Stats(s));
    let body = stats_body(s);
    assert(is_ws(' '));
    lemma_upper_word("STATS"@);
    lemma_stats_line(s);
    lemma_split_ws_concat("STATS"@, seq![' '] + body);
    lemma_trim_start_space(body);
    assert(line.last() == body.last());
    lemma_trim_newlines_none(line);
    lemma_stats_fields_parse(s);
    assert(parse_stats_body(body) == Ok::<ServerStats, Seq<char>>(s));
    assert("STATS"@ != "OK"@);
    assert("STATS"@ != "VALUE"@);
    assert("STATS"@ != "NOT_FOUND"@);
    assert("STATS"@ != "KEYS"@);
}

proof fn lemma_bare_roundtrip(r: ResponseView)
    requires
        r is Done || r is NotFound || r is Pong || r is Bye,
    ensures
        parse_response(encode_response(r)) == Ok::<ResponseView, Seq<char>>(r),
{
    reveal_response_tags();
    let line = encode_response(r);
    assert(!has_ws(line)) by {
        assert forall|i: int| 0 <= i < line.len() implies !is_ws(#[trigger] line[i]) by {
            assert(('A' <= line[i] && line[i] <= 'Z') || line[i] == '_');
        }
    }
    lemma_split_ws_word(line);
    lemma_trim_newlines_none(line);
    assert(trim_start(Seq::<char>::empty()) =~= Seq::<char>::empty());
    assert(line != "VALUE"@);
    assert(line != "KEYS"@);
    assert(line != "STATS"@);
    assert(line != "ERR"@);
    assert(r is NotFound ==> line != "OK"@);
    assert(r is Pong ==> line != "OK"@ && line != "NOT_FOUND"@);
    assert(r is Bye ==> line != "OK"@ && line != "NOT_FOUND"@ && line != "PONG"@);
}

/// Encoding a valid response and parsing the line gives the response back.
pub proof fn lemma_response_roundtrip(r: ResponseView)
    requires
        response_is_valid(r),
    ensures
        parse_response(encode_response(r)) == Ok::<ResponseView, Seq<char>>(r),
{
    match r {
        ResponseView::Value(v) => lemma_value_roundtrip(v),
        ResponseView::Failure(m) => lemma_failure_roundtrip(m),
        ResponseView::Keys(ks) => lemma_keys_roundtrip(ks),
        ResponseView::Stats(s) => lemma_stats_roundtrip(s),
        _ => lemma_bare_roundtrip(r),
    }
}

/// A line without line breaks, then `\r\n` or `\n`, loses exactly the terminator.
proof fn lemma_trim_terminator(l: Seq<char>, t: Seq<char>)
    requires
        !l.contains('\r'),
        !l.contains('\n'),
        forall|j: int| 0 <= j < t.len() ==> t[j] == '\r' || t[j] == '\n',
    ensures
        trim_newlines(l + t) == l,
{
    let s = l + t;
    crate::text::lemma_end_without_newlines(s, s.len() as int);
    let e = crate::text::end_without_newlines(s, s.len() as int);
    if e < l.len() {
        assert(s[l.len() - 1] == l[l.len() - 1]);
        assert(l.contains(s[l.len() - 1]));
    }
    if e > l.len() {
        assert(s[e - 1] == t[e - 1 - l.len()]);
    }
    assert(s.subrange(0, e) =~= l);
}

/// A request means the same with or without its line terminator: a line without line
/// breaks parses alike on its own, followed by `\n`, or followed by `\r\n`.
pub proof fn lemma_parse_ignores_line_end(l: Seq<char>)
    requires
        !l.contains('\r'),
        !l.contains('\n'),
    ensures
        parse_command(l + seq!['\r', '\n']) == parse_command(l),
        parse_command(l + seq!['\n']) == parse_command(l),
{
    lemma_trim_terminator(l, seq!['\r', '\n']);
    lemma_trim_terminator(l, seq!['\n']);
    lemma_trim_terminator(l, Seq::<char>::empty());
    assert(l + Seq::<char>::empty() =~= l);
}

/// A value is shown to a person exactly as it is, inner and outer spaces included, and a
/// valid value sent by the server is shown as that value.
pub proof fn lemma_value_shown_as_is(v: Seq<char>)
    ensures
        display_response(ResponseView::Value(v)) == v,
        response_is_valid(ResponseView::Value(v)) ==> (parse_response(
            encode_response(ResponseView::Value(v)),
        ) matches Ok(r) && display_response(r) == v),
{
    if response_is_valid(ResponseView::Value(v)) {
        lemma_response_roundtrip(ResponseView::Value(v));
    }
}

} // verus!
