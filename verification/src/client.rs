//! A client's connection: what each command does, and how it is answered.
use vstd::prelude::*;

use crate::outside::{fresh_id, is_id_digit};
use crate::server::laws::owned;
use crate::server::publish::{is_plan, Publication, TargetView};
use crate::server::request_laws::{
    law_limiting_sets_the_limit, law_offers_leave_the_message, law_refused_subscriptions_say_why,
    law_subscribing_adds_the_subscription, law_unsubscribing_ends_the_subscription,
};
use crate::server::{KeyView, ServerError, ServerErrorView, ServerState, ServerView};
use crate::subjects::subject_error;
use crate::text::optional_text;
use crate::wire::{
    info_of, ClientCommand, CommandView, MessageView, PublishCommand, ServerMessage,
    SubscribeCommand, UnsubscribeCommand, WireError, WireErrorView,
};

verus! {

/// How many messages may wait in the channel to a client.
pub const CHANNEL_SIZE: usize = 128;

/// Why a connection ends.
#[derive(Debug)]
pub enum ClientError {
    /// Reading or writing failed, with the words of the system.
    Io(String),
    Wire(WireError),
    Server(ServerError),
    /// Nobody takes messages out of the channel to the client any more.
    ChannelClosed,
    /// The writer broke off, with the words of the runtime.
    Join(String),
}

/// A `ClientError` by its texts.
pub enum ClientErrorView {
    Io(Seq<char>),
    Wire(WireErrorView),
    Server(ServerErrorView),
    ChannelClosed,
    Join(Seq<char>),
}

impl View for ClientError {
    type V = ClientErrorView;

    open spec fn view(&self) -> ClientErrorView {
        match self {
            ClientError::Io(s) => ClientErrorView::Io(s@),
            ClientError::Wire(error) => ClientErrorView::Wire(error@),
            ClientError::Server(error) => ClientErrorView::Server(error@),
            ClientError::ChannelClosed => ClientErrorView::ChannelClosed,
            ClientError::Join(s) => ClientErrorView::Join(s@),
        }
    }
}

impl ClientErrorView {
    /// The words in which the error is reported.
    pub open spec fn message(self) -> Seq<char> {
        match self {
            ClientErrorView::Io(s) => "IO 错误: "@ + s,
            ClientErrorView::Wire(error) => error.message(),
            ClientErrorView::Server(error) => error.message(),
            ClientErrorView::ChannelClosed => "客户端写通道已关闭"@,
            ClientErrorView::Join(s) => "写循环 Join 失败: "@ + s,
        }
    }
}

impl ClientError {
    /// The words in which the error is reported.
    pub fn message(&self) -> (res: String)
        ensures
            res@ == self@.message(),
    {
        match self {
            ClientError::Io(s) => "IO 错误: ".to_owned().concat(s.as_str()),
            ClientError::Wire(error) => error.message(),
            ClientError::Server(error) => error.message(),
            ClientError::ChannelClosed => "客户端写通道已关闭".to_owned(),
            ClientError::Join(s) => "写循环 Join 失败: ".to_owned().concat(s.as_str()),
        }
    }
}

impl vstd::std_specs::convert::FromSpecImpl<WireError> for ClientError {
    open spec fn obeys_from_spec() -> bool {
        true
    }

    open spec fn from_spec(error: WireError) -> Self {
        ClientError::Wire(error)
    }
}

impl From<WireError> for ClientError {
    fn from(error: WireError) -> (res: Self) {
        ClientError::Wire(error)
    }
}

impl vstd::std_specs::convert::FromSpecImpl<ServerError> for ClientError {
    open spec fn obeys_from_spec() -> bool {
        true
    }

    open spec fn from_spec(error: ServerError) -> Self {
        ClientError::Server(error)
    }
}

impl From<ServerError> for ClientError {
    fn from(error: ServerError) -> (res: Self) {
        ClientError::Server(error)
    }
}

/// What is left to be done for a command.
#[derive(Debug)]
pub enum Effect {
    Nothing,
    /// A message for the client.
    Reply(ServerMessage),
    /// A message for subscriptions.
    Publish(Publication),
}

/// `res` is no more than the answer `answer` of the server.
pub open spec fn passes_on(
    answer: Result<(), ServerErrorView>,
    res: Result<Effect, ClientError>,
) -> bool {
    match answer {
        Ok(_) => res matches Ok(Effect::Nothing),
        Err(error) => res matches Err(e) && e@ == ClientErrorView::Server(error),
    }
}

/// The command leaves the server as it is, and `message` is what the client gets.
pub open spec fn replies(message: MessageView, res: Result<Effect, ClientError>) -> bool {
    res matches Ok(Effect::Reply(m)) && m@ == message
}

/// `res` is the publication of a message, or the refusal of one that is too large.
pub open spec fn publishes(
    s: ServerView,
    subject: Seq<char>,
    reply_to: Option<Seq<char>>,
    payload: Seq<u8>,
    res: Result<Publication, ClientError>,
) -> bool {
    if payload.len() > s.config.max_payload {
        res matches Err(e) && e@ == ClientErrorView::Server(
            ServerErrorView::PayloadTooLarge {
                size: payload.len(),
                max: s.config.max_payload as nat,
            },
        )
    } else {
        res matches Ok(p) && is_plan(s.subscriptions, subject, reply_to, payload, p@)
    }
}

/// A command of the client `client_id` turns the server from `before` to `after` and gives
/// `res`.
pub open spec fn command_handled(
    before: ServerView,
    after: ServerView,
    client_id: Seq<char>,
    command: CommandView,
    res: Result<Effect, ClientError>,
) -> bool {
    match command {
        CommandView::Connect { options, verbose } => after == before && if verbose == Some(true) {
            replies(MessageView::Okay, res)
        } else {
            res matches Ok(Effect::Nothing)
        },
        CommandView::Ping => after == before && replies(MessageView::Pong, res),
        CommandView::Pong => after == before && res matches Ok(Effect::Nothing),
        CommandView::Sub { subject, queue_group, sid } => {
            let (state, answer) = before.subscribed(client_id, sid, subject, queue_group);
            after == state && passes_on(answer, res)
        },
        CommandView::Unsub { sid, max_msgs } => {
            let key = KeyView { client_id, sid };
            let (state, answer) = match max_msgs {
                Some(max) => before.limited(key, Some(max)),
                None => before.unsubscribed(key),
            };
            after == state && passes_on(answer, res)
        },
        CommandView::Pub { subject, reply_to, payload } => after == before && match res {
            Ok(Effect::Publish(p)) => publishes(before, subject, reply_to, payload, Ok(p)),
            Ok(_) => false,
            Err(e) => publishes(before, subject, reply_to, payload, Err(e)),
        },
    }
}

/// Publishes the message of a PUB.
pub fn handle_publish(state: &ServerState, publish: PublishCommand) -> (res: Result<
    Publication,
    ClientError,
>)
    ensures
        publishes(
            state@,
            publish.subject@,
            optional_text(publish.reply_to),
            publish.payload@,
            res,
        ),
{
    let PublishCommand { subject, reply_to, payload } = publish;
    match state.publish(subject.as_str(), reply_to, payload) {
        Ok(publication) => Ok(publication),
        Err(error) => Err(ClientError::from(error)),
    }
}

/// Carries out a command of the client `client_id`.
pub fn handle_command(state: &mut ServerState, client_id: &str, command: ClientCommand) -> (res:
    Result<Effect, ClientError>)
    ensures
        command_handled(old(state)@, final(state)@, client_id@, command@, res),
{
    let answer: Result<(), ServerError> = match command {
        ClientCommand::Connect(payload) => {
            let verbose: bool = payload.verbose.unwrap_or(false);
            return if verbose {
                Ok(Effect::Reply(ServerMessage::Okay))
            } else {
                Ok(Effect::Nothing)
            };
        },
        ClientCommand::Ping => {
            return Ok(Effect::Reply(ServerMessage::Pong));
        },
        ClientCommand::Pong => {
            return Ok(Effect::Nothing);
        },
        ClientCommand::Sub(sub) => state.add_subscription(
            client_id,
            sub.sid.as_str(),
            sub.subject.as_str(),
            sub.queue_group,
        ),
        ClientCommand::Unsub(unsub) => match unsub.max_msgs {
            Some(max) => state.update_subscription_limit(client_id, unsub.sid.as_str(), Some(max)),
            None => state.remove_subscription(client_id, unsub.sid.as_str()),
        },
        ClientCommand::Pub(publish) => {
            return match handle_publish(state, publish) {
                Ok(publication) => Ok(Effect::Publish(publication)),
                Err(error) => Err(error),
            };
        },
    };
    match answer {
        Ok(_) => Ok(Effect::Nothing),
        Err(error) => Err(ClientError::from(error)),
    }
}

/// A command that is refused changes nothing.
pub proof fn law_refused_command_changes_nothing(
    before: ServerView,
    after: ServerView,
    client_id: Seq<char>,
    command: CommandView,
    res: Result<Effect, ClientError>,
)
    requires
        command_handled(before, after, client_id, command, res),
        res is Err,
    ensures
        after == before,
{
}

/// No command leaves a subscription without its client, and none touches those of other clients.
pub proof fn law_commands_keep_to_their_client(
    before: ServerView,
    after: ServerView,
    client_id: Seq<char>,
    command: CommandView,
    res: Result<Effect, ClientError>,
)
    requires
        command_handled(before, after, client_id, command, res),
    ensures
        owned(before) ==> owned(after),
        after.clients == before.clients,
        forall|k: KeyView| k.client_id != client_id ==> {
            &&& #[trigger] after.subscriptions.contains_key(k) == before.subscriptions.contains_key(
                k,
            )
            &&& after.subscriptions.contains_key(k) ==> after.subscriptions[k]
                == before.subscriptions[k]
        },
{
}

/// How a connection goes on.
#[derive(Debug)]
pub enum Reaction {
    /// The next command is to be read.
    Continue,
    /// A message is to be sent to the client, then the next command is to be read.
    Reply(ServerMessage),
    /// A publication is to be carried out, then the next command is to be read.
    Publish(Publication),
    /// The reply is to be sent, whether or not the channel takes it, and the connection ends with
    /// the error.
    Refuse { reply: ServerMessage, error: ClientError },
    /// The client is gone, and the connection is to be closed.
    Close,
}

/// The client is told of the error, in its own words, and the connection ends with it.
pub open spec fn is_refusal(reaction: Reaction, error: ClientErrorView) -> bool {
    reaction matches Reaction::Refuse { reply, error: e } && reply@ == MessageView::Error(
        error.message(),
    ) && e@ == error
}

/// Tells the client of an error.
pub fn refuse(error: ClientError) -> (res: Reaction)
    ensures
        is_refusal(res, error@),
{
    let reply = ServerMessage::Error(error.message());
    Reaction::Refuse { reply, error }
}

/// The reaction to a command that was handled with the result `res`.
pub open spec fn reaction_to(res: Result<Effect, ClientError>, reaction: Reaction) -> bool {
    match res {
        Ok(Effect::Nothing) => reaction is Continue,
        Ok(Effect::Reply(message)) => reaction == Reaction::Reply(message),
        Ok(Effect::Publish(publication)) => reaction == Reaction::Publish(publication),
        Err(error) => is_refusal(reaction, error@),
    }
}

/// The connection of one client.
#[derive(Debug)]
pub struct Session {
    client_id: String,
}

impl View for Session {
    type V = Seq<char>;

    closed spec fn view(&self) -> Seq<char> {
        self.client_id@
    }
}

impl Session {
    /// Opens the connection of a new client that is reached by the channel `sender`: gives it a
    /// fresh identifier and registers it, and announces the server to it.
    pub fn open(state: &mut ServerState, sender: u64) -> (res: (Session, ServerMessage))
        ensures
            res.0@.len() == 25,
            forall|i: int| 0 <= i < 25 ==> is_id_digit(#[trigger] res.0@[i]),
            final(state)@ == old(state)@.registered(res.0@, sender),
            res.1 matches ServerMessage::Info(info) && info@ == info_of(
                old(state)@.server_id,
                old(state)@.config.port,
                old(state)@.config.max_payload,
                info.now,
            ),
    {
        let session = Session::open_as(state, fresh_id(), sender);
        let message = state.info();
        (session, message)
    }

    /// Opens the connection of the client `client_id`, which is reached by the channel `sender`.
    pub fn open_as(state: &mut ServerState, client_id: String, sender: u64) -> (res: Session)
        ensures
            res@ == client_id@,
            final(state)@ == old(state)@.registered(client_id@, sender),
    {
        state.register_client(client_id.clone(), sender);
        Session { client_id }
    }

    pub fn client_id(&self) -> (res: &str)
        ensures
            res@ == self@,
    {
        self.client_id.as_str()
    }

    /// Reacts to what was read: a command, the end of the input, or an error.
    pub fn on_read(
        &self,
        state: &mut ServerState,
        read: Result<Option<ClientCommand>, WireError>,
    ) -> (res: Reaction)
        ensures
            match read {
                Ok(Some(command)) => exists|handled: Result<Effect, ClientError>|
                    {
                        &&& #[trigger] command_handled(
                            old(state)@,
                            final(state)@,
                            self@,
                            command@,
                            handled,
                        )
                        &&& reaction_to(handled, res)
                    },
                Ok(None) => final(state)@ == old(state)@ && res is Close,
                Err(error) => final(state)@ == old(state)@ && is_refusal(
                    res,
                    ClientErrorView::Wire(error@),
                ),
            },
    {
        match read {
            Ok(Some(command)) => {
                let handled = handle_command(state, self.client_id.as_str(), command);
                assert(command_handled(old(state)@, state@, self@, command@, handled));
                match handled {
                    Ok(Effect::Nothing) => Reaction::Continue,
                    Ok(Effect::Reply(message)) => Reaction::Reply(message),
                    Ok(Effect::Publish(publication)) => Reaction::Publish(publication),
                    Err(error) => refuse(error),
                }
            },
            Ok(None) => Reaction::Close,
            Err(error) => refuse(ClientError::from(error)),
        }
    }

    /// Says whether the connection goes on after the server was announced: not if the channel did
    /// not take the announcement.
    pub fn on_greeting(&self, sent: bool) -> (res: Result<(), ClientError>)
        ensures
            if sent {
                res is Ok
            } else {
                res matches Err(e) && e@ == ClientErrorView::ChannelClosed
            },
    {
        if sent {
            Ok(())
        } else {
            Err(ClientError::ChannelClosed)
        }
    }

    /// Reacts to whether the channel took a reply.
    pub fn on_reply(&self, sent: bool) -> (res: Reaction)
        ensures
            if sent {
                res is Continue
            } else {
                is_refusal(res, ClientErrorView::ChannelClosed)
            },
    {
        if sent {
            Reaction::Continue
        } else {
            refuse(ClientError::ChannelClosed)
        }
    }

    /// Closes the connection: removes the client.
    pub fn close(self, state: &mut ServerState)
        ensures
            final(state)@ == old(state)@.unregistered(self@),
    {
        state.unregister_client(self.client_id.as_str());
    }
}

/// How a connection that was closed ends: as its writer ended, which may have broken off, in the
/// words of the runtime, or failed.
pub fn writer_result(ended: Result<Result<(), WireError>, String>) -> (res: Result<(), ClientError>)
    ensures
        match ended {
            Ok(Ok(_)) => res is Ok,
            Ok(Err(error)) => res matches Err(e) && e@ == ClientErrorView::Wire(error@),
            Err(words) => res matches Err(e) && e@ == ClientErrorView::Join(words@),
        },
{
    match ended {
        Ok(Ok(_)) => Ok(()),
        Ok(Err(error)) => Err(ClientError::from(error)),
        Err(words) => Err(ClientError::Join(words)),
    }
}

/// A SUB succeeds exactly if its subject is one and its client is registered. The subscription
/// under the identifier that it names is then there, to the subject that it names, and takes part
/// in exactly the queue that it names, or in none if it names none. Its messages go to the client,
/// and no other subscription changes.
pub proof fn law_sub_subscribes_as_it_says(
    before: ServerView,
    after: ServerView,
    client_id: Seq<char>,
    sub: SubscribeCommand,
    res: Result<Effect, ClientError>,
)
    requires
        command_handled(before, after, client_id, ClientCommand::Sub(sub)@, res),
    ensures
        ({
            let key = KeyView { client_id, sid: sub.sid@ };
            let entry = after.subscriptions[key];
            &&& res is Ok <==> subject_error(sub.subject@) is None && before.clients.contains_key(
                client_id,
            )
            &&& res is Ok ==> {
                &&& res->Ok_0 is Nothing
                &&& after.subscriptions.contains_key(key)
                &&& entry.subject == sub.subject@
                &&& sub.queue_group matches Some(queue) ==> entry.queue_group == Some(queue@)
                &&& sub.queue_group is None ==> entry.queue_group is None
                &&& entry.max_msgs is None
                &&& entry.delivered == 0
                &&& entry.sender == before.clients[client_id]
            }
            &&& forall|k: KeyView|
                k != key ==> (#[trigger] after.subscriptions.contains_key(k)
                    <==> before.subscriptions.contains_key(k))
            &&& forall|k: KeyView|
                k != key && #[trigger] after.subscriptions.contains_key(k)
                    ==> after.subscriptions[k] == before.subscriptions[k]
            &&& after.clients == before.clients
            &&& after.queue_counters == before.queue_counters
            &&& after.config == before.config
            &&& after.server_id == before.server_id
        }),
        res matches Err(error) ==> error matches ClientError::Server(e) && match e {
            ServerError::InvalidSubject(fault) => subject_error(sub.subject@) == Some(fault@),
            ServerError::ClientNotFound(id) => subject_error(sub.subject@) is None && id@
                == client_id,
            _ => false,
        },
{
    law_subscribing_adds_the_subscription(
        before,
        client_id,
        sub.sid@,
        sub.subject@,
        optional_text(sub.queue_group),
    );
    law_refused_subscriptions_say_why(
        before,
        client_id,
        sub.sid@,
        sub.subject@,
        optional_text(sub.queue_group),
    );
}

/// An UNSUB succeeds exactly if its client has the subscription that it names. With a number of
/// messages that becomes the limit, counted from the start of the subscription, which stays;
/// without one the subscription is gone. No other subscription changes, and no client.
pub proof fn law_unsub_ends_or_limits_as_it_says(
    before: ServerView,
    after: ServerView,
    client_id: Seq<char>,
    unsub: UnsubscribeCommand,
    res: Result<Effect, ClientError>,
)
    requires
        command_handled(before, after, client_id, ClientCommand::Unsub(unsub)@, res),
    ensures
        ({
            let key = KeyView { client_id, sid: unsub.sid@ };
            &&& res is Ok <==> before.subscriptions.contains_key(key)
            &&& res is Ok ==> res->Ok_0 is Nothing
            &&& after.subscriptions.contains_key(key) <==> before.subscriptions.contains_key(key)
                && unsub.max_msgs is Some
            &&& after.subscriptions.contains_key(key) ==> {
                &&& after.subscriptions[key].max_msgs == unsub.max_msgs
                &&& after.subscriptions[key].delivered == before.subscriptions[key].delivered
                &&& after.subscriptions[key].subject == before.subscriptions[key].subject
                &&& after.subscriptions[key].queue_group == before.subscriptions[key].queue_group
                &&& after.subscriptions[key].sender == before.subscriptions[key].sender
            }
            &&& forall|k: KeyView|
                k != key ==> (#[trigger] after.subscriptions.contains_key(k)
                    <==> before.subscriptions.contains_key(k))
            &&& forall|k: KeyView|
                k != key && #[trigger] after.subscriptions.contains_key(k)
                    ==> after.subscriptions[k] == before.subscriptions[k]
            &&& after.clients == before.clients
            &&& after.config == before.config
            &&& after.server_id == before.server_id
        }),
        res matches Err(error) ==> error matches ClientError::Server(e) && {
            &&& e matches ServerError::SubscriptionNotFound(missing)
            &&& missing.client_id@ == client_id
            &&& missing.sid@ == unsub.sid@
        },
{
    let key = KeyView { client_id, sid: unsub.sid@ };
    law_limiting_sets_the_limit(before, key, unsub.max_msgs);
    law_unsubscribing_ends_the_subscription(before, key);
}

/// A PUB of at most as many bytes as the server takes is published as it is: the publication has
/// exactly its subject, its subject for replies and its payload, and so has every message that is
/// delivered for it, with the identifier of its subscription. A larger one is refused, with both
/// sizes. The server stays as it is.
pub proof fn law_pub_publishes_what_it_says(
    before: ServerView,
    after: ServerView,
    client_id: Seq<char>,
    publish: PublishCommand,
    res: Result<Effect, ClientError>,
    t: TargetView,
)
    requires
        command_handled(before, after, client_id, ClientCommand::Pub(publish)@, res),
    ensures
        after == before,
        res is Ok <==> publish.payload@.len() <= before.config.max_payload,
        res matches Ok(effect) ==> effect matches Effect::Publish(p) && {
            &&& p@.subject == publish.subject@
            &&& publish.reply_to matches Some(reply) ==> p@.reply_to == Some(reply@)
            &&& publish.reply_to is None ==> p@.reply_to is None
            &&& p@.payload == publish.payload@
            &&& p@.attempt is None
            &&& p@.message_for(t) == (MessageView::Msg {
                subject: publish.subject@,
                sid: t.key.sid,
                reply_to: match publish.reply_to {
                    Some(reply) => Some(reply@),
                    None => None,
                },
                payload: publish.payload@,
            })
            &&& is_plan(before.subscriptions, p@.subject, p@.reply_to, p@.payload, p@)
        },
        res matches Err(error) ==> error matches ClientError::Server(e) && {
            &&& e matches ServerError::PayloadTooLarge { size, max }
            &&& size == publish.payload@.len()
            &&& max == before.config.max_payload
        },
{
    if let Ok(Effect::Publish(p)) = res {
        law_offers_leave_the_message(before, p@, true, t);
    }
}

/// What `handle_publish` gives is the publication of the command, or the refusal of a payload that
/// is too large.
pub proof fn law_publishing_keeps_the_parts(
    s: ServerView,
    subject: Seq<char>,
    reply_to: Option<Seq<char>>,
    payload: Seq<u8>,
    res: Result<Publication, ClientError>,
)
    requires
        publishes(s, subject, reply_to, payload, res),
    ensures
        res is Ok <==> payload.len() <= s.config.max_payload,
        res matches Ok(p) ==> p@.subject == subject && p@.reply_to == reply_to && p@.payload
            == payload && is_plan(s.subscriptions, subject, reply_to, payload, p@),
        res matches Err(error) ==> error matches ClientError::Server(e) && {
            &&& e matches ServerError::PayloadTooLarge { size, max }
            &&& size == payload.len()
            &&& max == s.config.max_payload
        },
{
}

/// A PING is answered with a PONG; a PONG with nothing; a CONNECT with an acknowledgement exactly
/// if it asks for one. The server stays as it is.
pub proof fn law_answers_to_simple_commands(
    before: ServerView,
    after: ServerView,
    client_id: Seq<char>,
    command: ClientCommand,
    res: Result<Effect, ClientError>,
)
    requires
        command_handled(before, after, client_id, command@, res),
    ensures
        command is Ping || command is Pong || command is Connect ==> after == before && res is Ok,
        command is Ping ==> (res->Ok_0 matches Effect::Reply(message) && message is Pong),
        command is Pong ==> res->Ok_0 is Nothing,
        command matches ClientCommand::Connect(connect) ==> if connect.verbose == Some(true) {
            res->Ok_0 matches Effect::Reply(message) && message is Okay
        } else {
            res->Ok_0 is Nothing
        },
{
}

/// The view of a command shows what it holds.
pub proof fn law_commands_show_what_they_hold(command: ClientCommand)
    ensures
        match command {
            ClientCommand::Connect(c) => command@ == (CommandView::Connect {
                options: c.options@,
                verbose: c.verbose,
            }),
            ClientCommand::Ping => command@ is Ping,
            ClientCommand::Pong => command@ is Pong,
            ClientCommand::Sub(c) => command@ == (CommandView::Sub {
                subject: c.subject@,
                queue_group: match c.queue_group {
                    Some(queue) => Some(queue@),
                    None => None,
                },
                sid: c.sid@,
            }),
            ClientCommand::Unsub(c) => command@ == (CommandView::Unsub {
                sid: c.sid@,
                max_msgs: c.max_msgs,
            }),
            ClientCommand::Pub(c) => command@ == (CommandView::Pub {
                subject: c.subject@,
                reply_to: match c.reply_to {
                    Some(reply) => Some(reply@),
                    None => None,
                },
                payload: c.payload@,
            }),
        },
{
}

/// A refusal tells the client the words of the error, and the connection ends with that error.
pub proof fn law_refusals_tell_the_error(reaction: Reaction, error: ClientErrorView)
    requires
        is_refusal(reaction, error),
    ensures
        reaction matches Reaction::Refuse { reply, error: e } && {
            &&& e@ == error
            &&& reply matches ServerMessage::Error(reason)
            &&& reason@ == error.message()
        },
{
}

/// What a command leaves to be done is done, and nothing else; an error is told.
pub proof fn law_reactions_do_what_is_left(res: Result<Effect, ClientError>, reaction: Reaction)
    requires
        reaction_to(res, reaction),
    ensures
        reaction is Continue <==> res is Ok && res->Ok_0 is Nothing,
        reaction is Reply <==> res is Ok && res->Ok_0 is Reply,
        reaction is Publish <==> res is Ok && res->Ok_0 is Publish,
        reaction is Refuse <==> res is Err,
        !(reaction is Close),
        reaction matches Reaction::Reply(message) ==> res == Ok::<Effect, ClientError>(
            Effect::Reply(message),
        ),
        reaction matches Reaction::Publish(publication) ==> res == Ok::<Effect, ClientError>(
            Effect::Publish(publication),
        ),
        reaction matches Reaction::Refuse { reply, error } ==> {
            &&& error@ == res->Err_0@
            &&& reply@ == MessageView::Error(res->Err_0@.message())
        },
{
}

/// The words of an error are those of what caused it.
pub proof fn law_client_error_words(
    words: Seq<char>,
    wire: WireErrorView,
    server: ServerErrorView,
)
    ensures
        ClientErrorView::Io(words).message() == "IO 错误: "@ + words,
        ClientErrorView::Wire(wire).message() == wire.message(),
        ClientErrorView::Server(server).message() == server.message(),
        ClientErrorView::ChannelClosed.message() == "客户端写通道已关闭"@,
        ClientErrorView::Join(words).message() == "写循环 Join 失败: "@ + words,
{
}

/// The view of an error shows what it holds.
pub proof fn law_client_errors_show_what_they_hold(error: ClientError)
    ensures
        match error {
            ClientError::Io(words) => error@ == ClientErrorView::Io(words@),
            ClientError::Wire(e) => error@ == ClientErrorView::Wire(e@),
            ClientError::Server(e) => error@ == ClientErrorView::Server(e@),
            ClientError::ChannelClosed => error@ is ChannelClosed,
            ClientError::Join(words) => error@ == ClientErrorView::Join(words@),
        },
{
}

} // verus!
