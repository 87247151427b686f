//! Per-line decisions of a server connection and of the console client.
//!
//! The server answers each request line with exactly one response line; a bad request gets
//! an error answer and the connection stays usable. Reading, writing and executing are left
//! to the caller, which hands these functions what it read.
use vstd::prelude::*;
use vstd::utf8::{decode_utf8, valid_utf8};
use crate::error::{error_text, ErrorView};
use crate::protocol::{
    display_response, limit_text, limit_msg, parse_command, parse_response,
    Command, CommandView, Response, ResponseView, MAX_LINE,
};
use crate::text::{
    all_ws, chars_of, is_blank, string_of, to_upper, trim_back, trim_end, trim_front, trim_start,
    upper, utf8_text,
};

verus! {

/// What one read of a request gave. A read takes at most [`MAX_LINE`] bytes and stops after
/// the first line feed.
pub enum Request {
    /// A complete line (with its line feed).
    Line(String),
    /// The peer closed the connection.
    Eof,
    /// The line is longer than the limit; the caller skips the rest of it.
    TooLong,
    /// The line is not UTF-8 text.
    NotUtf8,
}

/// A [`Request`] with its line taken as a character sequence.
pub enum RequestView {
    Line(Seq<char>),
    Eof,
    TooLong,
    NotUtf8,
}

impl View for Request {
    type V = RequestView;

    open spec fn view(&self) -> RequestView {
        match self {
            Request::Line(l) => RequestView::Line(l@),
            Request::Eof => RequestView::Eof,
            Request::TooLong => RequestView::TooLong,
            Request::NotUtf8 => RequestView::NotUtf8,
        }
    }
}

/// The request that the bytes of one read stand for: none means end of input, bytes that do
/// not end with a line feed mean a line cut at the limit.
pub open spec fn request_of(buf: Seq<u8>) -> RequestView {
    if buf.len() == 0 {
        RequestView::Eof
    } else if buf.last() != 10u8 {
        RequestView::TooLong
    } else if valid_utf8(buf) {
        RequestView::Line(decode_utf8(buf))
    } else {
        RequestView::NotUtf8
    }
}

/// Classifies the bytes of one read; see [`request_of`].
pub fn classify(buf: &[u8]) -> (r: Request)
    ensures
        r@ == request_of(buf@),
{
    if buf.len() == 0 {
        return Request::Eof;
    }
    if buf[buf.len() - 1] != 10u8 {
        return Request::TooLong;
    }
    match utf8_text(buf) {
        Some(t) => Request::Line(t),
        None => Request::NotUtf8,
    }
}

/// What the connection does with a request.
pub enum Reaction {
    /// Close the connection.
    Close,
    /// Send this response.
    Reply(Response),
    /// Execute the command and send its response.
    Execute(Command),
    /// Execute the command, send its response, then close the connection.
    ExecuteThenClose(Command),
}

/// A [`Reaction`] with its parts taken by their views.
pub enum ReactionView {
    Close,
    Reply(ResponseView),
    Execute(CommandView),
    ExecuteThenClose(CommandView),
}

impl View for Reaction {
    type V = ReactionView;

    open spec fn view(&self) -> ReactionView {
        match self {
            Reaction::Close => ReactionView::Close,
            Reaction::Reply(r) => ReactionView::Reply(r@),
            Reaction::Execute(c) => ReactionView::Execute(c@),
            Reaction::ExecuteThenClose(c) => ReactionView::ExecuteThenClose(c@),
        }
    }
}

/// The answer to a request line that is too long.
pub open spec fn request_too_long_msg() -> Seq<char> {
    limit_msg("请求超长，上限 "@, MAX_LINE as nat)
}

/// The answer to a request line that is not UTF-8.
pub open spec fn not_utf8_msg() -> Seq<char> {
    "请求不是合法的 UTF-8 文本"@
}

/// What the connection does with request `q`: a line is parsed, and executed if it is a
/// command; `QUIT` closes the connection after its answer; every other request gets an error
/// answer and the connection goes on.
pub open spec fn reaction_to(q: RequestView) -> ReactionView {
    match q {
        RequestView::Eof => ReactionView::Close,
        RequestView::TooLong => ReactionView::Reply(ResponseView::Failure(request_too_long_msg())),
        RequestView::NotUtf8 => ReactionView::Reply(ResponseView::Failure(not_utf8_msg())),
        RequestView::Line(l) => match parse_command(l) {
            Err(m) => ReactionView::Reply(
                ResponseView::Failure(error_text(ErrorView::Protocol(m))),
            ),
            Ok(c) => if c is Quit {
                ReactionView::ExecuteThenClose(c)
            } else {
                ReactionView::Execute(c)
            },
        },
    }
}

/// A connection answers every request until the end of input: a request that is not a
/// valid command gets an error answer and the connection goes on, and only `QUIT` closes it,
/// after its answer.
pub proof fn lemma_requests_are_answered(q: RequestView)
    ensures
        q !is Eof ==> !(reaction_to(q) is Close),
        (q !is Line) ==> reaction_to(q) is Close || reaction_to(q) matches ReactionView::Reply(
            ResponseView::Failure(_),
        ),
        reaction_to(q) is ExecuteThenClose <==> (q matches RequestView::Line(l) && parse_command(l)
            == Ok::<CommandView, Seq<char>>(CommandView::Quit)),
{
}

/// Decides what to do with a request; see [`reaction_to`].
pub fn react(q: Request) -> (r: Reaction)
    ensures
        r@ == reaction_to(q@),
{
    match q {
        Request::Eof => Reaction::Close,
        Request::TooLong => Reaction::Reply(Response::Failure(limit_text("请求超长，上限 ", MAX_LINE))),
        Request::NotUtf8 => Reaction::Reply(
            Response::Failure(String::from_str("请求不是合法的 UTF-8 文本")),
        ),
        Request::Line(l) => match Command::parse(l.as_str()) {
            Err(e) => {
                let m = e.message();
                Reaction::Reply(Response::Failure(m))
            },
            Ok(c) => {
                if matches!(c, Command::Quit) {
                    Reaction::ExecuteThenClose(c)
                } else {
                    Reaction::Execute(c)
                }
            },
        },
    }
}

/// What a line typed at the console asks the client to do.
pub enum Input {
    /// Nothing: the line is blank.
    Skip,
    /// Show the help text.
    Help,
    /// Show this message: the line is not a valid command.
    Invalid(String),
    /// Send this command to the server.
    Send(Command),
}

/// An [`Input`] with its parts taken by their views.
pub enum InputView {
    Skip,
    Help,
    Invalid(Seq<char>),
    Send(CommandView),
}

impl View for Input {
    type V = InputView;

    open spec fn view(&self) -> InputView {
        match self {
            Input::Skip => InputView::Skip,
            Input::Help => InputView::Help,
            Input::Invalid(m) => InputView::Invalid(m@),
            Input::Send(c) => InputView::Send(c@),
        }
    }
}

/// What the console line `line` asks for: a blank line nothing, `HELP` in any case of ASCII
/// letters the help text, anything else a command, checked before it is sent.
pub open spec fn input_of(line: Seq<char>) -> InputView {
    let l = trim_start(line);
    if all_ws(l) {
        InputView::Skip
    } else if upper(trim_end(l)) == "HELP"@ {
        InputView::Help
    } else {
        match parse_command(l) {
            Err(m) => InputView::Invalid(
                error_text(ErrorView::Protocol(m)) + "（输入 HELP 查看用法）"@,
            ),
            Ok(c) => InputView::Send(c),
        }
    }
}

/// Interprets a line typed at the console; see [`input_of`].
pub fn console_input(line: &str) -> (r: Input)
    ensures
        r@ == input_of(line@),
{
    let cs = chars_of(line);
    let l = trim_front(&cs);
    if is_blank(&l) {
        return Input::Skip;
    }
    let word = to_upper(&trim_back(&l));
    if crate::text::eq_lit(&word, "HELP") {
        return Input::Help;
    }
    let text = string_of(&l);
    match Command::parse(text.as_str()) {
        Err(e) => {
            let mut m = e.message();
            m.append("（输入 HELP 查看用法）");
            Input::Invalid(m)
        },
        Ok(c) => Input::Send(c),
    }
}

/// The text the console shows for a line the server sent: the response for a person to
/// read, or, as the error, why the line is not a response.
pub open spec fn reply_text_of(line: Seq<char>) -> core::result::Result<Seq<char>, Seq<char>> {
    match parse_response(line) {
        Ok(r) => Ok(display_response(r)),
        Err(m) => Err("无法解析服务器响应: "@ + error_text(ErrorView::Protocol(m))),
    }
}

/// The text to show for a line the server sent; see [`reply_text_of`].
pub fn reply_text(line: &str) -> (r: core::result::Result<String, String>)
    ensures
        match r {
            Ok(t) => reply_text_of(line@) == Ok::<Seq<char>, Seq<char>>(t@),
            Err(t) => reply_text_of(line@) == Err::<Seq<char>, Seq<char>>(t@),
        },
{
    match Response::parse(line) {
        Ok(resp) => Ok(resp.display()),
        Err(e) => {
            let mut m = String::from_str("无法解析服务器响应: ");
            let t = e.message();
            m.append(t.as_str());
            Err(m)
        },
    }
}

/// The command a line of a command file holds, with its leading whitespace removed: none
/// for a blank line or a comment (a line whose text starts with `#`).
pub open spec fn batch_line_of(line: Seq<char>) -> Option<Seq<char>> {
    let l = trim_start(line);
    if all_ws(l) || (l.len() > 0 && l[0] == '#') {
        None
    } else {
        Some(l)
    }
}

/// The command a line of a command file holds; see [`batch_line_of`].
pub fn batch_command_line(line: &str) -> (r: Option<String>)
    ensures
        match r {
            Some(t) => batch_line_of(line@) == Some(t@),
            None => batch_line_of(line@) is None,
        },
{
    let cs = chars_of(line);
    let l = trim_front(&cs);
    if is_blank(&l) || (l.len() > 0 && l[0] == '#') {
        None
    } else {
        Some(string_of(&l))
    }
}

/// What a line of a command file asks the client to do.
pub enum BatchStep {
    /// Nothing: a blank line or a comment.
    Skip,
    /// Show the help text.
    Help,
    /// Show this message: the line is not a valid command.
    Invalid(String),
    /// Send this command to the server.
    Send(Command),
}

/// A [`BatchStep`] with its parts taken by their views.
pub enum BatchStepView {
    Skip,
    Help,
    Invalid(Seq<char>),
    Send(CommandView),
}

impl View for BatchStep {
    type V = BatchStepView;

    open spec fn view(&self) -> BatchStepView {
        match self {
            BatchStep::Skip => BatchStepView::Skip,
            BatchStep::Help => BatchStepView::Help,
            BatchStep::Invalid(m) => BatchStepView::Invalid(m@),
            BatchStep::Send(c) => BatchStepView::Send(c@),
        }
    }
}

/// What the command-file line `line` asks for: nothing for a blank line or a comment;
/// otherwise, with its leading whitespace removed, `HELP` in any case of ASCII letters (and
/// nothing after it) the help text, anything else a command, checked before it is sent.
pub open spec fn batch_step_of(line: Seq<char>) -> BatchStepView {
    match batch_line_of(line) {
        None => BatchStepView::Skip,
        Some(c) => if upper(c) == "HELP"@ {
            BatchStepView::Help
        } else {
            match parse_command(c) {
                Err(m) => BatchStepView::Invalid(error_text(ErrorView::Protocol(m))),
                Ok(cmd) => BatchStepView::Send(cmd),
            }
        },
    }
}

/// Interprets a line of a command file; see [`batch_step_of`].
pub fn batch_input(line: &str) -> (r: BatchStep)
    ensures
        r@ == batch_step_of(line@),
{
    match batch_command_line(line) {
        None => BatchStep::Skip,
        Some(c) => {
            let cs = chars_of(c.as_str());
            let word = to_upper(&cs);
            if crate::text::eq_lit(&word, "HELP") {
                return BatchStep::Help;
            }
            match Command::parse(c.as_str()) {
                Err(e) => BatchStep::Invalid(e.message()),
                Ok(cmd) => BatchStep::Send(cmd),
            }
        },
    }
}

} // verus!
