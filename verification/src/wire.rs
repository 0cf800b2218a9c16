//! The text protocol: commands of clients and messages of the server.
use vstd::prelude::*;
use vstd::utf8::{decode_utf8, encode_utf8, valid_utf8};

use chrono::NaiveDateTime;

use crate::outside::{json_flag, local_time, read_json_flag};
use crate::text::{
    chars_of, copy_bytes, copy_optional, decimal, decimal_text, first_white, is_white, number_of,
    optional_text, parse_number, same_text, split_words, texts, trim, trim_start, trimmed,
    trimmed_start, words,
};

verus! {

/// The version that the server announces.
pub const VERSION: &'static str = "0.1.0";

/// What can go wrong on the wire.
#[derive(Debug)]
pub enum WireError {
    /// Reading or writing failed, with the words of the system.
    Io(String),
    /// A line is no UTF-8.
    Utf8,
    /// The options of a CONNECT are no JSON, with the words of the reader.
    Json(String),
    UnsupportedCommand(String),
    MissingArgument(&'static str),
    InvalidArgument(String),
}

/// A `WireError` by its texts.
pub enum WireErrorView {
    Io(Seq<char>),
    Utf8,
    Json(Seq<char>),
    UnsupportedCommand(Seq<char>),
    MissingArgument(Seq<char>),
    InvalidArgument(Seq<char>),
}

impl View for WireError {
    type V = WireErrorView;

    open spec fn view(&self) -> WireErrorView {
        match self {
            WireError::Io(s) => WireErrorView::Io(s@),
            WireError::Utf8 => WireErrorView::Utf8,
            WireError::Json(s) => WireErrorView::Json(s@),
            WireError::UnsupportedCommand(s) => WireErrorView::UnsupportedCommand(s@),
            WireError::MissingArgument(s) => WireErrorView::MissingArgument(s@),
            WireError::InvalidArgument(s) => WireErrorView::InvalidArgument(s@),
        }
    }
}

impl WireErrorView {
    /// The words in which the error is reported.
    pub open spec fn message(self) -> Seq<char> {
        match self {
            WireErrorView::Io(s) => "IO 错误: "@ + s,
            WireErrorView::Utf8 => "协议帧不是有效的 UTF-8 数据"@,
            WireErrorView::Json(s) => "JSON 解析失败: "@ + s,
            WireErrorView::UnsupportedCommand(s) => "未知或不支持的命令: "@ + s,
            WireErrorView::MissingArgument(s) => "命令参数缺失: "@ + s,
            WireErrorView::InvalidArgument(s) => "命令参数无效: "@ + s,
        }
    }
}

impl WireError {
    /// The words in which the error is reported.
    pub fn message(&self) -> (res: String)
        ensures
            res@ == self@.message(),
    {
        match self {
            WireError::Io(s) => "IO 错误: ".to_owned().concat(s.as_str()),
            WireError::Utf8 => "协议帧不是有效的 UTF-8 数据".to_owned(),
            WireError::Json(s) => "JSON 解析失败: ".to_owned().concat(s.as_str()),
            WireError::UnsupportedCommand(s) => "未知或不支持的命令: ".to_owned().concat(s.as_str()),
            WireError::MissingArgument(s) => "命令参数缺失: ".to_owned().concat(s),
            WireError::InvalidArgument(s) => "命令参数无效: ".to_owned().concat(s.as_str()),
        }
    }
}

/// A request of a client.
#[derive(Debug)]
pub enum ClientCommand {
    Connect(ConnectCommand),
    Ping,
    Pong,
    Sub(SubscribeCommand),
    Unsub(UnsubscribeCommand),
    Pub(PublishCommand),
}

/// What a client announces of itself: the JSON text, and the member `verbose` of its object
/// where that is a boolean.
#[derive(Debug)]
pub struct ConnectCommand {
    pub options: String,
    pub verbose: Option<bool>,
}

#[derive(Debug)]
pub struct SubscribeCommand {
    pub subject: String,
    pub queue_group: Option<String>,
    pub sid: String,
}

#[derive(Debug)]
pub struct UnsubscribeCommand {
    pub sid: String,
    pub max_msgs: Option<u64>,
}

#[derive(Debug)]
pub struct PublishCommand {
    pub subject: String,
    pub reply_to: Option<String>,
    pub payload: Vec<u8>,
}

/// A `ClientCommand` by its texts and bytes.
pub enum CommandView {
    Connect { options: Seq<char>, verbose: Option<bool> },
    Ping,
    Pong,
    Sub { subject: Seq<char>, queue_group: Option<Seq<char>>, sid: Seq<char> },
    Unsub { sid: Seq<char>, max_msgs: Option<u64> },
    Pub { subject: Seq<char>, reply_to: Option<Seq<char>>, payload: Seq<u8> },
}

impl View for ClientCommand {
    type V = CommandView;

    open spec fn view(&self) -> CommandView {
        match self {
            ClientCommand::Connect(c) => CommandView::Connect {
                options: c.options@,
                verbose: c.verbose,
            },
            ClientCommand::Ping => CommandView::Ping,
            ClientCommand::Pong => CommandView::Pong,
            ClientCommand::Sub(c) => CommandView::Sub {
                subject: c.subject@,
                queue_group: optional_text(c.queue_group),
                sid: c.sid@,
            },
            ClientCommand::Unsub(c) => CommandView::Unsub { sid: c.sid@, max_msgs: c.max_msgs },
            ClientCommand::Pub(c) => CommandView::Pub {
                subject: c.subject@,
                reply_to: optional_text(c.reply_to),
                payload: c.payload@,
            },
        }
    }
}

impl Clone for ConnectCommand {
    fn clone(&self) -> (res: Self)
        ensures
            res.options@ == self.options@,
            res.verbose == self.verbose,
    {
        ConnectCommand { options: self.options.clone(), verbose: self.verbose }
    }
}

impl Clone for SubscribeCommand {
    fn clone(&self) -> (res: Self)
        ensures
            res.subject@ == self.subject@,
            optional_text(res.queue_group) == optional_text(self.queue_group),
            res.sid@ == self.sid@,
    {
        SubscribeCommand {
            subject: self.subject.clone(),
            queue_group: copy_optional(&self.queue_group),
            sid: self.sid.clone(),
        }
    }
}

impl Clone for UnsubscribeCommand {
    fn clone(&self) -> (res: Self)
        ensures
            res.sid@ == self.sid@,
            res.max_msgs == self.max_msgs,
    {
        UnsubscribeCommand { sid: self.sid.clone(), max_msgs: self.max_msgs }
    }
}

impl Clone for PublishCommand {
    fn clone(&self) -> (res: Self)
        ensures
            res.subject@ == self.subject@,
            optional_text(res.reply_to) == optional_text(self.reply_to),
            res.payload@ == self.payload@,
    {
        PublishCommand {
            subject: self.subject.clone(),
            reply_to: copy_optional(&self.reply_to),
            payload: copy_bytes(&self.payload),
        }
    }
}

impl Clone for ClientCommand {
    fn clone(&self) -> (res: Self)
        ensures
            res@ == self@,
    {
        match self {
            ClientCommand::Connect(c) => ClientCommand::Connect(c.clone()),
            ClientCommand::Ping => ClientCommand::Ping,
            ClientCommand::Pong => ClientCommand::Pong,
            ClientCommand::Sub(c) => ClientCommand::Sub(c.clone()),
            ClientCommand::Unsub(c) => ClientCommand::Unsub(c.clone()),
            ClientCommand::Pub(c) => ClientCommand::Pub(c.clone()),
        }
    }
}

/// What a server announces of itself.
#[derive(Debug)]
pub struct InfoMessage {
    pub server_id: String,
    pub server_name: String,
    pub version: String,
    pub proto: u8,
    pub host: String,
    pub port: u16,
    pub max_payload: usize,
    pub headers: Option<bool>,
    pub auth_required: Option<bool>,
    pub tls_required: Option<bool>,
    pub jetstream: Option<bool>,
    pub now: NaiveDateTime,
}

/// An `InfoMessage` by its texts.
pub struct InfoView {
    pub server_id: Seq<char>,
    pub server_name: Seq<char>,
    pub version: Seq<char>,
    pub proto: u8,
    pub host: Seq<char>,
    pub port: u16,
    pub max_payload: usize,
    pub headers: Option<bool>,
    pub auth_required: Option<bool>,
    pub tls_required: Option<bool>,
    pub jetstream: Option<bool>,
    pub now: NaiveDateTime,
}

impl View for InfoMessage {
    type V = InfoView;

    open spec fn view(&self) -> InfoView {
        InfoView {
            server_id: self.server_id@,
            server_name: self.server_name@,
            version: self.version@,
            proto: self.proto,
            host: self.host@,
            port: self.port,
            max_payload: self.max_payload,
            headers: self.headers,
            auth_required: self.auth_required,
            tls_required: self.tls_required,
            jetstream: self.jetstream,
            now: self.now,
        }
    }
}

impl Clone for InfoMessage {
    fn clone(&self) -> (res: Self)
        ensures
            res@ == self@,
    {
        InfoMessage {
            server_id: self.server_id.clone(),
            server_name: self.server_name.clone(),
            version: self.version.clone(),
            proto: self.proto,
            host: self.host.clone(),
            port: self.port,
            max_payload: self.max_payload,
            headers: self.headers,
            auth_required: self.auth_required,
            tls_required: self.tls_required,
            jetstream: self.jetstream,
            now: self.now,
        }
    }
}

/// A message of the server to a client.
#[derive(Debug)]
pub enum ServerMessage {
    Info(InfoMessage),
    Okay,
    Pong,
    Msg(OutboundMessage),
    Error(String),
}

/// A published message on its way to one subscription.
#[derive(Debug)]
pub struct OutboundMessage {
    pub subject: String,
    pub sid: String,
    pub reply_to: Option<String>,
    pub payload: Vec<u8>,
}

/// A `ServerMessage` by its texts and bytes.
pub enum MessageView {
    Info(InfoView),
    Okay,
    Pong,
    Msg { subject: Seq<char>, sid: Seq<char>, reply_to: Option<Seq<char>>, payload: Seq<u8> },
    Error(Seq<char>),
}

impl View for ServerMessage {
    type V = MessageView;

    open spec fn view(&self) -> MessageView {
        match self {
            ServerMessage::Info(info) => MessageView::Info(info@),
            ServerMessage::Okay => MessageView::Okay,
            ServerMessage::Pong => MessageView::Pong,
            ServerMessage::Msg(m) => MessageView::Msg {
                subject: m.subject@,
                sid: m.sid@,
                reply_to: optional_text(m.reply_to),
                payload: m.payload@,
            },
            ServerMessage::Error(reason) => MessageView::Error(reason@),
        }
    }
}

impl Clone for OutboundMessage {
    fn clone(&self) -> (res: Self)
        ensures
            res.subject@ == self.subject@,
            res.sid@ == self.sid@,
            optional_text(res.reply_to) == optional_text(self.reply_to),
            res.payload@ == self.payload@,
    {
        OutboundMessage {
            subject: self.subject.clone(),
            sid: self.sid.clone(),
            reply_to: copy_optional(&self.reply_to),
            payload: copy_bytes(&self.payload),
        }
    }
}

impl Clone for ServerMessage {
    fn clone(&self) -> (res: Self)
        ensures
            res@ == self@,
    {
        match self {
            ServerMessage::Info(info) => ServerMessage::Info(info.clone()),
            ServerMessage::Okay => ServerMessage::Okay,
            ServerMessage::Pong => ServerMessage::Pong,
            ServerMessage::Msg(m) => ServerMessage::Msg(m.clone()),
            ServerMessage::Error(reason) => ServerMessage::Error(reason.clone()),
        }
    }
}

/// What the server announces at the time `now`.
pub open spec fn info_of(
    server_id: Seq<char>,
    port: u16,
    max_payload: usize,
    now: NaiveDateTime,
) -> InfoView {
    InfoView {
        server_id,
        server_name: "silent-nats"@,
        version: VERSION@,
        proto: 1,
        host: "0.0.0.0"@,
        port,
        max_payload,
        headers: Some(false),
        auth_required: Some(false),
        tls_required: Some(false),
        jetstream: Some(false),
        now,
    }
}

/// What the server announces, as of now.
pub fn info_message(server_id: String, port: u16, max_payload: usize) -> (res: InfoMessage)
    ensures
        res@ == info_of(server_id@, port, max_payload, res.now),
{
    info_message_at(server_id, port, max_payload, local_time())
}

/// What the server announces at the time `now`.
pub fn info_message_at(
    server_id: String,
    port: u16,
    max_payload: usize,
    now: NaiveDateTime,
) -> (res: InfoMessage)
    ensures
        res@ == info_of(server_id@, port, max_payload, now),
{
    InfoMessage {
        server_id,
        server_name: "silent-nats".to_owned(),
        version: VERSION.to_owned(),
        proto: 1,
        host: "0.0.0.0".to_owned(),
        port,
        max_payload,
        headers: Some(false),
        auth_required: Some(false),
        tls_required: Some(false),
        jetstream: Some(false),
        now,
    }
}

/// The optional fourth word of the header of a MSG.
pub open spec fn reply_part(reply_to: Option<Seq<char>>) -> Seq<u8> {
    match reply_to {
        Some(reply) => encode_utf8(" "@) + encode_utf8(reply),
        None => Seq::<u8>::empty(),
    }
}

/// The bytes of a message; `info_json` is the JSON text of what an INFO announces.
pub open spec fn frame(message: MessageView, info_json: Seq<char>) -> Seq<u8> {
    match message {
        MessageView::Info(_) => encode_utf8("INFO "@) + encode_utf8(info_json) + encode_utf8(
            "\r\n"@,
        ),
        MessageView::Okay => encode_utf8("+OK\r\n"@),
        MessageView::Pong => encode_utf8("PONG\r\n"@),
        MessageView::Error(reason) => encode_utf8("-ERR '"@) + encode_utf8(reason) + encode_utf8(
            "'\r\n"@,
        ),
        MessageView::Msg { subject, sid, reply_to, payload } => encode_utf8("MSG "@) + encode_utf8(
            subject,
        ) + encode_utf8(" "@) + encode_utf8(sid) + reply_part(reply_to) + encode_utf8(" "@)
            + encode_utf8(decimal(payload.len())) + encode_utf8("\r\n"@) + payload + encode_utf8(
            "\r\n"@,
        ),
    }
}

fn push_bytes(out: &mut Vec<u8>, bytes: &[u8])
    ensures
        final(out)@ == old(out)@ + bytes@,
{
    let ghost before = out@;
    out.extend_from_slice(bytes);
    proof {
        assert(out@ =~= before + bytes@);
    }
}

fn push_text(out: &mut Vec<u8>, text: &str)
    ensures
        final(out)@ == old(out)@ + encode_utf8(text@),
{
    push_bytes(out, text.as_bytes());
}

/// The bytes of a message. What an INFO announces comes as JSON text, in `info_json`, which no
/// other message looks at.
pub fn write_message(message: &ServerMessage, info_json: &str) -> (res: Vec<u8>)
    ensures
        res@ == frame(message@, info_json@),
{
    let mut out: Vec<u8> = Vec::new();
    match message {
        ServerMessage::Info(_) => {
            push_text(&mut out, "INFO ");
            push_text(&mut out, info_json);
            push_text(&mut out, "\r\n");
        },
        ServerMessage::Okay => {
            push_text(&mut out, "+OK\r\n");
        },
        ServerMessage::Pong => {
            push_text(&mut out, "PONG\r\n");
        },
        ServerMessage::Error(reason) => {
            push_text(&mut out, "-ERR '");
            push_text(&mut out, reason.as_str());
            push_text(&mut out, "'\r\n");
        },
        ServerMessage::Msg(message) => {
            push_text(&mut out, "MSG ");
            push_text(&mut out, message.subject.as_str());
            push_text(&mut out, " ");
            push_text(&mut out, message.sid.as_str());
            if let Some(reply) = &message.reply_to {
                push_text(&mut out, " ");
                push_text(&mut out, reply.as_str());
            }
            push_text(&mut out, " ");
            push_text(&mut out, decimal_text(message.payload.len() as u64).as_str());
            push_text(&mut out, "\r\n");
            push_bytes(&mut out, message.payload.as_slice());
            push_text(&mut out, "\r\n");
        },
    }
    proof {
        assert(out@ =~= frame(message@, info_json@));
    }
    out
}

/// A result by the views of what it holds.
pub open spec fn viewed<T: View, E: View>(res: Result<T, E>) -> Result<T::V, E::V> {
    match res {
        Ok(value) => Ok(value@),
        Err(error) => Err(error@),
    }
}

/// The first line of a PUB: what it says of the payload that follows.
#[derive(Debug)]
pub struct PublishHeader {
    pub subject: String,
    pub reply_to: Option<String>,
    pub length: usize,
}

/// A `PublishHeader` by its texts.
pub struct HeaderView {
    pub subject: Seq<char>,
    pub reply_to: Option<Seq<char>>,
    pub length: nat,
}

impl View for PublishHeader {
    type V = HeaderView;

    open spec fn view(&self) -> HeaderView {
        HeaderView {
            subject: self.subject@,
            reply_to: optional_text(self.reply_to),
            length: self.length as nat,
        }
    }
}

/// What a line asks for.
#[derive(Debug)]
pub enum Line {
    /// Nothing: the next line is to be read.
    Blank,
    /// A command that is complete.
    Command(ClientCommand),
    /// A PUB, of which the payload is to be read.
    Publish(PublishHeader),
}

/// A `Line` by its texts.
pub enum LineView {
    Blank,
    Command(CommandView),
    Publish(HeaderView),
}

impl View for Line {
    type V = LineView;

    open spec fn view(&self) -> LineView {
        match self {
            Line::Blank => LineView::Blank,
            Line::Command(command) => LineView::Command(command@),
            Line::Publish(header) => LineView::Publish(header@),
        }
    }
}

/// A line without the line feed that it may end with, nor the carriage return before that.
pub open spec fn line_content(line: Seq<u8>) -> Seq<u8> {
    if line.len() > 0 && line.last() == 10 {
        let rest = line.drop_last();
        if rest.len() > 0 && rest.last() == 13 {
            rest.drop_last()
        } else {
            rest
        }
    } else {
        line
    }
}

/// A CONNECT with the options `options`, of which the JSON reader said `reading`.
pub open spec fn connect_of(
    options: Seq<char>,
    reading: Result<Option<bool>, Seq<char>>,
) -> Result<CommandView, WireErrorView> {
    match reading {
        Ok(verbose) => Ok(CommandView::Connect { options, verbose }),
        Err(message) => Err(WireErrorView::Json(message)),
    }
}

/// What follows the word CONNECT.
pub open spec fn connect_meaning(rest: Seq<char>) -> Result<CommandView, WireErrorView> {
    if rest.len() == 0 {
        Err(WireErrorView::MissingArgument("CONNECT"@))
    } else {
        connect_of(trimmed_start(rest), json_flag(trimmed_start(rest), "verbose"@))
    }
}

/// What follows the word SUB: a subject, perhaps a queue group, and an identifier.
pub open spec fn subscribe_meaning(rest: Seq<char>) -> Result<CommandView, WireErrorView> {
    let parts = words(rest);
    if parts.len() < 2 {
        Err(WireErrorView::MissingArgument("SUB"@))
    } else if parts.len() == 2 {
        Ok(CommandView::Sub { subject: parts[0], queue_group: None, sid: parts[1] })
    } else if parts.len() == 3 {
        Ok(CommandView::Sub { subject: parts[0], queue_group: Some(parts[1]), sid: parts[2] })
    } else {
        Err(WireErrorView::InvalidArgument(rest))
    }
}

/// What follows the word UNSUB: an identifier, and perhaps a number of messages.
pub open spec fn unsubscribe_meaning(rest: Seq<char>) -> Result<CommandView, WireErrorView> {
    let parts = words(rest);
    if parts.len() == 0 {
        Err(WireErrorView::MissingArgument("UNSUB"@))
    } else if parts.len() > 2 {
        Err(WireErrorView::InvalidArgument(rest))
    } else if parts.len() == 1 {
        Ok(CommandView::Unsub { sid: parts[0], max_msgs: None })
    } else {
        match number_of(parts[1], u64::MAX as nat) {
            Some(max) => Ok(CommandView::Unsub { sid: parts[0], max_msgs: Some(max as u64) }),
            None => Err(
                WireErrorView::InvalidArgument("UNSUB 无法解析最大消息数: "@ + parts[1]),
            ),
        }
    }
}

/// What follows the word PUB: a subject, perhaps a subject for replies, and a length.
pub open spec fn publish_meaning(rest: Seq<char>) -> Result<HeaderView, WireErrorView> {
    let parts = words(rest);
    if parts.len() == 0 {
        Err(WireErrorView::MissingArgument("PUB subject"@))
    } else if parts.len() == 1 {
        Err(WireErrorView::MissingArgument("PUB length"@))
    } else {
        let number = if parts.len() == 2 {
            parts[1]
        } else {
            parts[2]
        };
        match number_of(number, usize::MAX as nat) {
            None => Err(WireErrorView::InvalidArgument("PUB 无法解析消息长度: "@ + number)),
            Some(length) => if parts.len() > 3 {
                Err(WireErrorView::InvalidArgument(rest))
            } else {
                Ok(
                    HeaderView {
                        subject: parts[0],
                        reply_to: if parts.len() == 2 {
                            None
                        } else {
                            Some(parts[1])
                        },
                        length,
                    },
                )
            },
        }
    }
}

/// A command as a step of the reading.
pub open spec fn as_line(
    command: Result<CommandView, WireErrorView>,
) -> Result<LineView, WireErrorView> {
    match command {
        Ok(command) => Ok(LineView::Command(command)),
        Err(error) => Err(error),
    }
}

/// What a trimmed line asks for: its first word says which command it is.
pub open spec fn command_meaning(line: Seq<char>) -> Result<LineView, WireErrorView> {
    let n = first_white(line) as int;
    let verb = line.take(n);
    let rest = trimmed_start(line.skip(n));
    if verb == "CONNECT"@ {
        as_line(connect_meaning(rest))
    } else if verb == "PING"@ {
        Ok(LineView::Command(CommandView::Ping))
    } else if verb == "PONG"@ {
        Ok(LineView::Command(CommandView::Pong))
    } else if verb == "SUB"@ {
        as_line(subscribe_meaning(rest))
    } else if verb == "UNSUB"@ {
        as_line(unsubscribe_meaning(rest))
    } else if verb == "PUB"@ {
        match publish_meaning(rest) {
            Ok(header) => Ok(LineView::Publish(header)),
            Err(error) => Err(error),
        }
    } else {
        Err(WireErrorView::UnsupportedCommand(verb))
    }
}

/// What the bytes of a line ask for.
pub open spec fn line_meaning(line: Seq<u8>) -> Result<LineView, WireErrorView> {
    let content = line_content(line);
    if !valid_utf8(content) {
        Err(WireErrorView::Utf8)
    } else {
        let text = trimmed(decode_utf8(content));
        if text.len() == 0 {
            Ok(LineView::Blank)
        } else {
            command_meaning(text)
        }
    }
}

/// A PUB with its payload and the two bytes after it.
pub open spec fn publish_of(
    header: HeaderView,
    payload: Seq<u8>,
    trailer: Seq<u8>,
) -> Result<CommandView, WireErrorView> {
    if trailer == seq![13u8, 10u8] {
        Ok(CommandView::Pub { subject: header.subject, reply_to: header.reply_to, payload })
    } else {
        Err(WireErrorView::InvalidArgument("PUB 负载未以 CRLF 结尾"@))
    }
}

pub(crate) proof fn lemma_first_white_at(s: Seq<char>, n: int)
    requires
        0 <= n <= s.len(),
        forall|j: int| 0 <= j < n ==> !is_white(#[trigger] s[j]),
        n < s.len() ==> is_white(s[n]),
    ensures
        first_white(s) == n,
    decreases n,
{
    if n > 0 {
        assert(!is_white(s[0]));
        let rest = s.drop_first();
        assert forall|j: int| 0 <= j < n - 1 implies !is_white(#[trigger] rest[j]) by {
            assert(!is_white(s[j + 1]));
        }
        lemma_first_white_at(rest, n - 1);
    }
}

/// Splits a line at its first white space: the first word, and the rest without the white space
/// before it.
pub fn split_command(line: &str) -> (res: (&str, &str))
    ensures
        res.0@ == line@.take(first_white(line@) as int),
        res.1@ == trimmed_start(line@.skip(first_white(line@) as int)),
{
    let cs = chars_of(line);
    let mut idx: usize = 0;
    while idx < cs.len() && !cs[idx].is_whitespace()
        invariant
            cs@ == line@,
            idx <= cs.len(),
            forall|j: int| 0 <= j < idx ==> !is_white(#[trigger] cs@[j]),
        decreases cs.len() - idx,
    {
        idx += 1;
    }
    proof {
        lemma_first_white_at(line@, idx as int);
    }
    let verb = line.substring_char(0, idx);
    let tail = line.substring_char(idx, cs.len());
    proof {
        assert(verb@ =~= line@.take(idx as int));
        assert(tail@ =~= line@.skip(idx as int));
    }
    (verb, trim_start(tail))
}

/// Reads what follows the word CONNECT.
pub fn parse_connect(rest: &str) -> (res: Result<ClientCommand, WireError>)
    ensures
        viewed(res) == connect_meaning(rest@),
{
    if rest.is_empty() {
        return Err(WireError::MissingArgument("CONNECT"));
    }
    let json = trim_start(rest);
    connect_command(json, read_json_flag(json, "verbose"))
}

/// A CONNECT with the options `json`, of which the JSON reader said `reading`.
pub fn connect_command(json: &str, reading: Result<Option<bool>, String>) -> (res: Result<
    ClientCommand,
    WireError,
>)
    ensures
        viewed(res) == connect_of(
            json@,
            match reading {
                Ok(verbose) => Ok(verbose),
                Err(message) => Err(message@),
            },
        ),
{
    match reading {
        Ok(verbose) => Ok(
            ClientCommand::Connect(ConnectCommand { options: json.to_owned(), verbose }),
        ),
        Err(message) => Err(WireError::Json(message)),
    }
}

/// Reads what follows the word SUB.
pub fn parse_subscribe(rest: &str) -> (res: Result<ClientCommand, WireError>)
    ensures
        viewed(res) == subscribe_meaning(rest@),
{
    let parts = split_words(rest);
    let ghost w = words(rest@);
    assert(texts(parts@) == w);
    if parts.len() < 2 {
        return Err(WireError::MissingArgument("SUB"));
    }
    let (subject, queue_group, sid): (&str, Option<String>, &str) = if parts.len() == 2 {
        assert(w[0] == parts@[0]@ && w[1] == parts@[1]@);
        (parts[0], None, parts[1])
    } else if parts.len() == 3 {
        assert(w[0] == parts@[0]@ && w[1] == parts@[1]@ && w[2] == parts@[2]@);
        (parts[0], Some(parts[1].to_owned()), parts[2])
    } else {
        return Err(WireError::InvalidArgument(rest.to_owned()));
    };
    Ok(
        ClientCommand::Sub(
            SubscribeCommand { subject: subject.to_owned(), queue_group, sid: sid.to_owned() },
        ),
    )
}

/// Reads what follows the word UNSUB.
pub fn parse_unsubscribe(rest: &str) -> (res: Result<ClientCommand, WireError>)
    ensures
        viewed(res) == unsubscribe_meaning(rest@),
{
    let parts = split_words(rest);
    let ghost w = words(rest@);
    assert(texts(parts@) == w);
    if parts.len() == 0 {
        return Err(WireError::MissingArgument("UNSUB"));
    }
    if parts.len() > 2 {
        return Err(WireError::InvalidArgument(rest.to_owned()));
    }
    assert(w[0] == parts@[0]@);
    let max_msgs: Option<u64> = if parts.len() == 2 {
        assert(w[1] == parts@[1]@);
        match parse_number(parts[1], u64::MAX) {
            Some(max) => Some(max),
            None => {
                return Err(
                    WireError::InvalidArgument(
                        "UNSUB 无法解析最大消息数: ".to_owned().concat(parts[1]),
                    ),
                );
            },
        }
    } else {
        None
    };
    Ok(ClientCommand::Unsub(UnsubscribeCommand { sid: parts[0].to_owned(), max_msgs }))
}

/// Reads what follows the word PUB.
pub fn parse_publish(rest: &str) -> (res: Result<PublishHeader, WireError>)
    ensures
        viewed(res) == publish_meaning(rest@),
{
    let parts = split_words(rest);
    let ghost w = words(rest@);
    assert(texts(parts@) == w);
    if parts.len() == 0 {
        return Err(WireError::MissingArgument("PUB subject"));
    }
    if parts.len() == 1 {
        return Err(WireError::MissingArgument("PUB length"));
    }
    assert(w[0] == parts@[0]@ && w[1] == parts@[1]@);
    let (reply_to, len_value): (Option<String>, &str) = if parts.len() == 2 {
        (None, parts[1])
    } else {
        assert(w[2] == parts@[2]@);
        (Some(parts[1].to_owned()), parts[2])
    };
    let length: usize = match parse_number(len_value, usize::MAX as u64) {
        Some(n) => n as usize,
        None => {
            return Err(
                WireError::InvalidArgument("PUB 无法解析消息长度: ".to_owned().concat(len_value)),
            );
        },
    };
    if parts.len() > 3 {
        return Err(WireError::InvalidArgument(rest.to_owned()));
    }
    Ok(PublishHeader { subject: parts[0].to_owned(), reply_to, length })
}

/// Completes a PUB with its payload and the two bytes after it.
pub fn finish_publish(header: PublishHeader, payload: Vec<u8>, trailer: [u8; 2]) -> (res: Result<
    ClientCommand,
    WireError,
>)
    ensures
        viewed(res) == publish_of(header@, payload@, trailer@),
{
    proof {
        if trailer@[0] == 13 && trailer@[1] == 10 {
            assert(trailer@ =~= seq![13u8, 10u8]);
        }
    }
    if trailer[0] != 13 || trailer[1] != 10 {
        return Err(WireError::InvalidArgument("PUB 负载未以 CRLF 结尾".to_owned()));
    }
    Ok(
        ClientCommand::Pub(
            PublishCommand { subject: header.subject, reply_to: header.reply_to, payload },
        ),
    )
}

/// Reads a trimmed line.
pub fn parse_command(line: &str) -> (res: Result<Line, WireError>)
    ensures
        viewed(res) == command_meaning(line@),
{
    let (verb, rest) = split_command(line);
    if same_text(verb, "CONNECT") {
        match parse_connect(rest) {
            Ok(command) => Ok(Line::Command(command)),
            Err(error) => Err(error),
        }
    } else if same_text(verb, "PING") {
        Ok(Line::Command(ClientCommand::Ping))
    } else if same_text(verb, "PONG") {
        Ok(Line::Command(ClientCommand::Pong))
    } else if same_text(verb, "SUB") {
        match parse_subscribe(rest) {
            Ok(command) => Ok(Line::Command(command)),
            Err(error) => Err(error),
        }
    } else if same_text(verb, "UNSUB") {
        match parse_unsubscribe(rest) {
            Ok(command) => Ok(Line::Command(command)),
            Err(error) => Err(error),
        }
    } else if same_text(verb, "PUB") {
        match parse_publish(rest) {
            Ok(header) => Ok(Line::Publish(header)),
            Err(error) => Err(error),
        }
    } else {
        Err(WireError::UnsupportedCommand(verb.to_owned()))
    }
}

/// Reads the bytes of a line, up to and with its line feed.
pub fn read_line(line: Vec<u8>) -> (res: Result<Line, WireError>)
    ensures
        viewed(res) == line_meaning(line@),
{
    let mut buffer = line;
    if buffer.len() > 0 && buffer[buffer.len() - 1] == 10 {
        buffer.pop();
        if buffer.len() > 0 && buffer[buffer.len() - 1] == 13 {
            buffer.pop();
        }
    }
    proof {
        assert(buffer@ =~= line_content(line@));
    }
    match String::from_utf8(buffer) {
        Ok(text) => {
            let trimmed_line = trim(text.as_str());
            if trimmed_line.is_empty() {
                Ok(Line::Blank)
            } else {
                parse_command(trimmed_line)
            }
        },
        Err(_) => Err(WireError::Utf8),
    }
}

/// The length of the first line of `input`: up to and with its first line feed, or all of it.
pub open spec fn line_length(input: Seq<u8>) -> nat
    decreases input.len(),
{
    if input.len() == 0 {
        0
    } else if input[0] == 10 {
        1
    } else {
        1 + line_length(input.drop_first())
    }
}

/// What was read of some input, and how many bytes of it were taken.
pub struct ReadView {
    pub outcome: Result<Option<CommandView>, WireErrorView>,
    pub taken: nat,
}

/// Reading the payload that `header` announces at the start of `input`, and the two bytes after
/// it; an input that ends before them is used up and reported.
pub open spec fn payload_reading(header: HeaderView, input: Seq<u8>) -> ReadView {
    let n = header.length as int;
    if input.len() < n + 2 {
        ReadView { outcome: Err(WireErrorView::Io("early eof"@)), taken: input.len() }
    } else {
        ReadView {
            outcome: match publish_of(header, input.take(n), input.subrange(n, n + 2)) {
                Ok(command) => Ok(Some(command)),
                Err(error) => Err(error),
            },
            taken: (n + 2) as nat,
        }
    }
}

/// A reading of what comes after the first `n` bytes, seen from before them.
pub open spec fn after(n: nat, reading: ReadView) -> ReadView {
    ReadView { outcome: reading.outcome, taken: n + reading.taken }
}

/// Reading one command at the start of `input`: blank lines are passed over, and an input with
/// nothing else holds none.
pub open spec fn command_reading(input: Seq<u8>) -> ReadView
    decreases input.len(),
    via command_reading_shrinks
{
    if input.len() == 0 {
        ReadView { outcome: Ok(None), taken: 0 }
    } else {
        let n = line_length(input);
        match line_meaning(input.take(n as int)) {
            Err(error) => ReadView { outcome: Err(error), taken: n },
            Ok(LineView::Command(command)) => ReadView { outcome: Ok(Some(command)), taken: n },
            Ok(LineView::Publish(header)) => after(
                n,
                payload_reading(header, input.skip(n as int)),
            ),
            Ok(LineView::Blank) => after(n, command_reading(input.skip(n as int))),
        }
    }
}

#[via_fn]
proof fn command_reading_shrinks(input: Seq<u8>) {
    lemma_line_length_bound(input);
}

proof fn lemma_line_length_bound(input: Seq<u8>)
    ensures
        line_length(input) <= input.len(),
        input.len() > 0 ==> line_length(input) > 0,
    decreases input.len(),
{
    if input.len() > 0 {
        lemma_line_length_bound(input.drop_first());
    }
}

pub(crate) proof fn lemma_line_length_at(input: Seq<u8>, n: int)
    requires
        0 < n <= input.len(),
        forall|j: int| 0 <= j < n - 1 ==> #[trigger] input[j] != 10,
        n < input.len() ==> input[n - 1] == 10,
    ensures
        line_length(input) == n,
    decreases n,
{
    if n > 1 {
        assert(input[0] != 10);
        let rest = input.drop_first();
        assert forall|j: int| 0 <= j < n - 1 - 1 implies #[trigger] rest[j] != 10 by {
            assert(input[j + 1] != 10);
        }
        lemma_line_length_at(rest, n - 1);
    } else if input[0] != 10 {
        assert(input.len() == 1);
        assert(line_length(input.drop_first()) == 0);
    }
}

/// The bytes of `input` from `from` up to `to`.
fn bytes_between(input: &[u8], from: usize, to: usize) -> (res: Vec<u8>)
    requires
        from <= to <= input@.len(),
    ensures
        res@ == input@.subrange(from as int, to as int),
{
    let mut res: Vec<u8> = Vec::new();
    let mut i: usize = from;
    while i < to
        invariant
            from <= i <= to <= input@.len(),
            res@ == input@.subrange(from as int, i as int),
        decreases to - i,
    {
        res.push(input[i]);
        proof {
            assert(res@ =~= input@.subrange(from as int, i + 1));
        }
        i += 1;
    }
    res
}

/// The end of the line that starts at `from`.
fn line_end(input: &[u8], from: usize) -> (res: usize)
    requires
        from < input@.len(),
    ensures
        from < res <= input@.len(),
        res == from + line_length(input@.skip(from as int)),
{
    let ghost rest = input@.skip(from as int);
    let mut i: usize = from;
    while i < input.len() && input[i] != 10
        invariant
            rest == input@.skip(from as int),
            from <= i <= input@.len(),
            forall|j: int| 0 <= j < i - from ==> #[trigger] rest[j] != 10,
        decreases input.len() - i,
    {
        proof {
            assert(rest[i - from] == input@[i as int]);
        }
        i += 1;
    }
    if i < input.len() {
        i += 1;
    }
    proof {
        if i < input@.len() || input@[i - 1] == 10 {
            assert(rest[i - 1 - from] == input@[i - 1]);
        }
        lemma_line_length_at(rest, i - from);
    }
    i
}

/// Reads the payload that `header` announces, and the two bytes after it, from `from` on.
fn read_payload(header: PublishHeader, input: &[u8], from: usize) -> (res: (
    Result<Option<ClientCommand>, WireError>,
    usize,
))
    requires
        from <= input@.len(),
    ensures
        (ReadView { outcome: read_outcome(res.0), taken: res.1 as nat }) == payload_reading(
            header@,
            input@.skip(from as int),
        ),
{
    let ghost rest = input@.skip(from as int);
    let left: usize = input.len() - from;
    if left < 2 || left - 2 < header.length {
        return (Err(WireError::Io("early eof".to_owned())), left);
    }
    let n: usize = header.length;
    let payload = bytes_between(input, from, from + n);
    let trailer: [u8; 2] = [input[from + n], input[from + n + 1]];
    proof {
        assert(payload@ =~= rest.take(n as int));
        assert(trailer@ =~= rest.subrange(n as int, n + 2));
    }
    match finish_publish(header, payload, trailer) {
        Ok(command) => (Ok(Some(command)), n + 2),
        Err(error) => (Err(error), n + 2),
    }
}

/// The result of a reading by the views of what it holds.
pub open spec fn read_outcome(res: Result<Option<ClientCommand>, WireError>) -> Result<
    Option<CommandView>,
    WireErrorView,
> {
    match res {
        Ok(Some(command)) => Ok(Some(command@)),
        Ok(None) => Ok(None),
        Err(error) => Err(error@),
    }
}

/// Reads one command at the start of `input`, and says how many bytes it took.
pub fn read_command(input: &[u8]) -> (res: (Result<Option<ClientCommand>, WireError>, usize))
    ensures
        (ReadView { outcome: read_outcome(res.0), taken: res.1 as nat }) == command_reading(input@),
{
    let mut at: usize = 0;
    proof {
        assert(input@.skip(0) =~= input@);
    }
    while at < input.len()
        invariant
            at <= input@.len(),
            command_reading(input@) == after(at as nat, command_reading(input@.skip(at as int))),
        decreases input.len() - at,
    {
        let ghost rest = input@.skip(at as int);
        let end = line_end(input, at);
        let line = bytes_between(input, at, end);
        proof {
            assert(line@ =~= rest.take(end - at));
            assert(rest.skip(end - at) =~= input@.skip(end as int));
        }
        match read_line(line) {
            Err(error) => {
                return (Err(error), end);
            },
            Ok(Line::Command(command)) => {
                return (Ok(Some(command)), end);
            },
            Ok(Line::Publish(header)) => {
                let (outcome, taken) = read_payload(header, input, end);
                proof {
                    assert(taken <= input@.len() - end);
                }
                return (outcome, end + taken);
            },
            Ok(Line::Blank) => {
                at = end;
            },
        }
    }
    (Ok(None), at)
}

} // verus!
