//! What calls of the server's functions give, and how calls relate, in terms of what goes in and
//! what comes out.
use vstd::prelude::*;

use chrono::NaiveDateTime;

use crate::outside::quoted;
use crate::server::laws::law_publications_stay_well_formed;
use crate::server::publish::{begun, is_plan, reported, Delivery, Publication};
use crate::server::queue::{QueueKey, QueueView};
use crate::server::request_laws::{
    law_limiting_sets_the_limit, law_offers_come_in_order, law_offers_leave_the_message,
    law_publications_list_whom_they_are_for, law_refused_subscriptions_say_why,
    law_registering_gives_a_channel, law_served_queues_note_their_turn,
    law_subscribing_adds_the_subscription, law_taken_messages_count_once,
    law_unregistering_leaves_the_others, law_unsubscribing_ends_the_subscription,
};
use crate::server::{
    KeyView, ServerConfig, ServerError, ServerState, SubscriptionEntry, SubscriptionKey,
};
use crate::subjects::{subject_error, subject_matches, Subject, SubjectError};
use crate::table::TableKey;
use crate::text::{decimal, optional_text, text_before};
use crate::wire::{InfoMessage, ServerMessage, VERSION};

verus! {

/// A new server has the identifier and the configuration that it was given, and nothing else.
pub proof fn law_new_servers_are_empty(server_id: String, config: ServerConfig, state: ServerState)
    requires
        call_ensures(ServerState::new, (server_id, config), state),
    ensures
        state@.server_id == server_id@,
        state@.config == config,
        forall|c: Seq<char>| !(#[trigger] state@.clients.contains_key(c)),
        forall|k: KeyView| !(#[trigger] state@.subscriptions.contains_key(k)),
        forall|q: QueueView| !(#[trigger] state@.queue_counters.contains_key(q)),
{
}

/// `info` announces a server: its identifier, its port and its largest payload.
pub open spec fn announces(info: InfoMessage, id: Seq<char>, port: u16, max_payload: usize) -> bool {
    &&& info.server_id@ == id
    &&& info.server_name@ == "silent-nats"@
    &&& info.version@ == VERSION@
    &&& info.proto == 1
    &&& info.host@ == "0.0.0.0"@
    &&& info.port == port
    &&& info.max_payload == max_payload
    &&& info.headers == Some(false)
    &&& info.auth_required == Some(false)
    &&& info.tls_required == Some(false)
    &&& info.jetstream == Some(false)
}

/// A server announces its identifier, its port and its largest payload, at the time that it is
/// given where it is given one.
pub proof fn law_servers_announce_themselves(
    state: &ServerState,
    now: NaiveDateTime,
    message: ServerMessage,
)
    ensures
        call_ensures(ServerState::info, (state,), message) ==> (message matches ServerMessage::Info(
            info,
        ) && announces(
            info,
            state@.server_id,
            state@.config.port,
            state@.config.max_payload,
        )),
        call_ensures(ServerState::info_at, (state, now), message) ==> (
        message matches ServerMessage::Info(info) && info.now == now && announces(
            info,
            state@.server_id,
            state@.config.port,
            state@.config.max_payload,
        )),
{
}

/// The identifier of a server is the one that it was given.
pub proof fn law_servers_know_their_identifier(state: &ServerState, id: &str)
    requires
        call_ensures(ServerState::server_id, (state,), id),
    ensures
        id@ == state@.server_id,
{
}

/// A registered client is reached by the channel that it was registered with; nothing else
/// changes.
pub proof fn law_registered_clients_have_their_channel(
    state: &mut ServerState,
    client_id: String,
    sender: u64,
)
    requires
        call_ensures(ServerState::register_client, (state, client_id, sender), ()),
    ensures
        final(state)@ == old(state)@.registered(client_id@, sender),
        final(state)@.clients.contains_key(client_id@),
        final(state)@.clients[client_id@] == sender,
        forall|c: Seq<char>|
            c != client_id@ ==> (#[trigger] final(state)@.clients.contains_key(c) <==> old(
                state)@.clients.contains_key(c)),
        forall|c: Seq<char>|
            c != client_id@ && #[trigger] final(state)@.clients.contains_key(c) ==> final(
                state)@.clients[c] == old(state)@.clients[c],
        final(state)@.subscriptions == old(state)@.subscriptions,
        final(state)@.queue_counters == old(state)@.queue_counters,
        final(state)@.config == old(state)@.config,
        final(state)@.server_id == old(state)@.server_id,
{
    law_registering_gives_a_channel(old(state)@, client_id@, sender);
}

/// A removed client is gone with all its subscriptions; other clients and their subscriptions are
/// as they were.
pub proof fn law_unregistered_clients_are_gone(state: &mut ServerState, client_id: &str)
    requires
        call_ensures(ServerState::unregister_client, (state, client_id), ()),
    ensures
        final(state)@ == old(state)@.unregistered(client_id@),
        forall|c: Seq<char>| #[trigger]
            final(state)@.clients.contains_key(c) <==> old(state)@.clients.contains_key(c) && c
                != client_id@,
        forall|c: Seq<char>| #[trigger]
            final(state)@.clients.contains_key(c) ==> final(state)@.clients[c] == old(
                state)@.clients[c],
        forall|k: KeyView| #[trigger]
            final(state)@.subscriptions.contains_key(k) <==> old(state)@.subscriptions.contains_key(
                k,
            ) && k.client_id != client_id@,
        forall|k: KeyView| #[trigger]
            final(state)@.subscriptions.contains_key(k) ==> final(state)@.subscriptions[k] == old(
                state)@.subscriptions[k],
        forall|q: QueueView| #[trigger]
            final(state)@.queue_counters.contains_key(q) ==> old(
                state)@.queue_counters.contains_key(q) && final(state)@.queue_counters[q] == old(
                state)@.queue_counters[q],
        final(state)@.config == old(state)@.config,
        final(state)@.server_id == old(state)@.server_id,
{
    law_unregistering_leaves_the_others(old(state)@, client_id@);
}

/// A subscription that was accepted is there, to the subject and in the queue that were asked for,
/// with the channel of its client; it is accepted exactly if the subject is one and the client is
/// there. No other subscription changes.
pub proof fn law_accepted_subscriptions_are_there(
    state: &mut ServerState,
    client_id: &str,
    sid: &str,
    subject: &str,
    queue_group: Option<String>,
    res: Result<(), ServerError>,
)
    requires
        call_ensures(
            ServerState::add_subscription,
            (state, client_id, sid, subject, queue_group),
            res,
        ),
    ensures
        final(state)@ == old(state)@.subscribed(
            client_id@,
            sid@,
            subject@,
            match queue_group {
                Some(queue) => Some(queue@),
                None => None,
            },
        ).0,
        ({
            let key = KeyView { client_id: client_id@, sid: sid@ };
            let entry = final(state)@.subscriptions[key];
            &&& res is Ok <==> subject_error(subject@) is None && old(
                state)@.clients.contains_key(client_id@)
            &&& res is Ok ==> {
                &&& final(state)@.subscriptions.contains_key(key)
                &&& entry.subject == subject@
                &&& queue_group matches Some(queue) ==> entry.queue_group == Some(queue@)
                &&& queue_group is None ==> entry.queue_group is None
                &&& entry.max_msgs is None
                &&& entry.delivered == 0
                &&& entry.sender == old(state)@.clients[client_id@]
            }
            &&& forall|k: KeyView|
                k != key ==> (#[trigger] final(state)@.subscriptions.contains_key(k) <==> old(
                    state)@.subscriptions.contains_key(k))
            &&& forall|k: KeyView|
                k != key && #[trigger] final(state)@.subscriptions.contains_key(k) ==> final(
                    state)@.subscriptions[k] == old(state)@.subscriptions[k]
        }),
        res is Err ==> final(state)@ == old(state)@,
        res matches Err(error) ==> match error {
            ServerError::InvalidSubject(fault) => subject_error(subject@) == Some(fault@),
            ServerError::ClientNotFound(id) => subject_error(subject@) is None && id@
                == client_id@,
            _ => false,
        },
        final(state)@.clients == old(state)@.clients,
        final(state)@.queue_counters == old(state)@.queue_counters,
        final(state)@.config == old(state)@.config,
        final(state)@.server_id == old(state)@.server_id,
{
    law_subscribing_adds_the_subscription(
        old(state)@,
        client_id@,
        sid@,
        subject@,
        optional_text(queue_group),
    );
    law_refused_subscriptions_say_why(
        old(state)@,
        client_id@,
        sid@,
        subject@,
        optional_text(queue_group),
    );
}

/// A limit that was accepted is the one that was asked for, and what the subscription got so far
/// still counts; it is accepted exactly if the subscription is there. Nothing else changes.
pub proof fn law_accepted_limits_are_set(
    state: &mut ServerState,
    client_id: &str,
    sid: &str,
    max_msgs: Option<u64>,
    res: Result<(), ServerError>,
)
    requires
        call_ensures(
            ServerState::update_subscription_limit,
            (state, client_id, sid, max_msgs),
            res,
        ),
    ensures
        final(state)@ == old(state)@.limited(
            KeyView { client_id: client_id@, sid: sid@ },
            max_msgs,
        ).0,
        ({
            let key = KeyView { client_id: client_id@, sid: sid@ };
            let before = old(state)@.subscriptions[key];
            let entry = final(state)@.subscriptions[key];
            &&& res is Ok <==> old(state)@.subscriptions.contains_key(key)
            &&& res is Ok ==> {
                &&& entry.max_msgs == max_msgs
                &&& entry.delivered == before.delivered
                &&& entry.subject == before.subject
                &&& entry.queue_group == before.queue_group
                &&& entry.sender == before.sender
            }
            &&& forall|k: KeyView| #[trigger]
                final(state)@.subscriptions.contains_key(k) <==> old(
                    state)@.subscriptions.contains_key(k)
            &&& forall|k: KeyView|
                k != key && #[trigger] final(state)@.subscriptions.contains_key(k) ==> final(
                    state)@.subscriptions[k] == old(state)@.subscriptions[k]
        }),
        res matches Err(error) ==> (error matches ServerError::SubscriptionNotFound(missing)
            && missing.client_id@ == client_id@ && missing.sid@ == sid@),
        final(state)@.clients == old(state)@.clients,
        final(state)@.queue_counters == old(state)@.queue_counters,
        final(state)@.config == old(state)@.config,
        final(state)@.server_id == old(state)@.server_id,
{
    law_limiting_sets_the_limit(
        old(state)@,
        KeyView { client_id: client_id@, sid: sid@ },
        max_msgs,
    );
}

/// A subscription that was ended is gone, and no other; it can be ended exactly if it is there.
pub proof fn law_ended_subscriptions_are_gone(
    state: &mut ServerState,
    client_id: &str,
    sid: &str,
    res: Result<(), ServerError>,
)
    requires
        call_ensures(ServerState::remove_subscription, (state, client_id, sid), res),
    ensures
        final(state)@ == old(state)@.unsubscribed(
            KeyView { client_id: client_id@, sid: sid@ },
        ).0,
        ({
            let key = KeyView { client_id: client_id@, sid: sid@ };
            &&& res is Ok <==> old(state)@.subscriptions.contains_key(key)
            &&& forall|k: KeyView| #[trigger]
                final(state)@.subscriptions.contains_key(k) <==> old(
                    state)@.subscriptions.contains_key(k) && k != key
            &&& forall|k: KeyView| #[trigger]
                final(state)@.subscriptions.contains_key(k) ==> final(state)@.subscriptions[k]
                    == old(state)@.subscriptions[k]
        }),
        res matches Err(error) ==> (error matches ServerError::SubscriptionNotFound(missing)
            && missing.client_id@ == client_id@ && missing.sid@ == sid@),
        res is Err ==> final(state)@ == old(state)@,
        final(state)@.clients == old(state)@.clients,
        final(state)@.config == old(state)@.config,
        final(state)@.server_id == old(state)@.server_id,
{
    law_unsubscribing_ends_the_subscription(
        old(state)@,
        KeyView { client_id: client_id@, sid: sid@ },
    );
}

/// A payload of at most the largest size is published, with the subject, the subject for replies
/// and the payload as they were given, for exactly the subscriptions whose subject covers that of
/// the message. A larger one is refused with both sizes.
pub proof fn law_published_messages_keep_their_parts(
    state: &ServerState,
    subject: &str,
    reply_to: Option<String>,
    payload: Vec<u8>,
    res: Result<Publication, ServerError>,
)
    requires
        call_ensures(ServerState::publish, (state, subject, reply_to, payload), res),
    ensures
        res matches Ok(p) ==> p@.wf() && is_plan(
            state@.subscriptions,
            subject@,
            match reply_to {
                Some(reply) => Some(reply@),
                None => None,
            },
            payload@,
            p@,
        ),
        res is Ok <==> payload@.len() <= state@.config.max_payload,
        res matches Err(error) ==> (error matches ServerError::PayloadTooLarge { size, max }
            && size == payload@.len() && max == state@.config.max_payload),
        res matches Ok(p) ==> {
            &&& p@.subject == subject@
            &&& reply_to matches Some(reply) ==> p@.reply_to == Some(reply@)
            &&& reply_to is None ==> p@.reply_to is None
            &&& p@.payload == payload@
            &&& p@.attempt is None
        },
        res matches Ok(p) ==> forall|k: KeyView|
            #[trigger]
            state@.subscriptions.contains_key(k) && subject_matches(
                state@.subscriptions[k].subject,
                subject@,
            ) && state@.subscriptions[k].queue_group is None ==> exists|i: int|
                0 <= i < p@.direct.len() && (#[trigger] p@.direct[i]).key == k
                    && p@.direct[i].sender == state@.subscriptions[k].sender,
        res matches Ok(p) ==> forall|k: KeyView|
            #[trigger]
            state@.subscriptions.contains_key(k) && subject_matches(
                state@.subscriptions[k].subject,
                subject@,
            ) && state@.subscriptions[k].queue_group is Some ==> exists|g: int, i: int|
                0 <= g < p@.groups.len() && 0 <= i < p@.groups[g].members.len() && (
                #[trigger] p@.groups[g].members[i]).key == k,
        res matches Ok(p) ==> forall|i: int|
            0 <= i < p@.direct.len() ==> {
                let k = (#[trigger] p@.direct[i]).key;
                &&& state@.subscriptions.contains_key(k)
                &&& subject_matches(state@.subscriptions[k].subject, subject@)
                &&& state@.subscriptions[k].queue_group is None
                &&& p@.direct[i].sender == state@.subscriptions[k].sender
            },
        res matches Ok(p) ==> forall|g: int, i: int|
            0 <= g < p@.groups.len() && 0 <= i < p@.groups[g].members.len() ==> {
                let k = (#[trigger] p@.groups[g].members[i]).key;
                &&& state@.subscriptions.contains_key(k)
                &&& subject_matches(state@.subscriptions[k].subject, subject@)
                &&& state@.subscriptions[k].queue_group == Some(p@.groups[g].key.queue)
                &&& p@.groups[g].members[i].sender == state@.subscriptions[k].sender
            },
        res matches Ok(p) ==> forall|i: int, j: int|
            0 <= i < j < p@.direct.len() ==> (#[trigger] p@.direct[i]).key != (
            #[trigger] p@.direct[j]).key,
        res matches Ok(p) ==> forall|g: int, h: int|
            0 <= g < h < p@.groups.len() ==> (#[trigger] p@.groups[g]).key.queue != (
            #[trigger] p@.groups[h]).key.queue,
        res matches Ok(p) ==> forall|g: int, i: int, j: int|
            #![trigger p@.groups[g].members[i], p@.groups[g].members[j]]
            0 <= g < p@.groups.len() && 0 <= i < j < p@.groups[g].members.len()
                ==> p@.groups[g].members[i].key.before(p@.groups[g].members[j].key),
{
    if let Ok(p) = res {
        law_publications_stay_well_formed(state@.subscriptions, state@, p@, true);
        law_publications_list_whom_they_are_for(
            state@,
            subject@,
            optional_text(reply_to),
            payload@,
            p@,
        );
    }
}

/// What is delivered is the message that was published, whole, with the identifier of the
/// subscription that it is for; it goes into the channel of that one. The message of the
/// publication stays as it is.
pub proof fn law_deliveries_carry_the_published_message(
    state: &mut ServerState,
    publication: &mut Publication,
    res: Option<Delivery>,
)
    requires
        call_ensures(ServerState::next_delivery, (state, publication), res),
    ensures
        res matches Some(delivery) ==> (delivery.message matches ServerMessage::Msg(message) && {
            &&& message.subject@ == old(publication)@.subject
            &&& message.sid@ == delivery.key.sid@
            &&& message.reply_to matches Some(reply) ==> old(publication)@.reply_to == Some(reply@)
            &&& message.reply_to is None ==> old(publication)@.reply_to is None
            &&& message.payload@ == old(publication)@.payload
        }),
        final(publication)@.subject == old(publication)@.subject,
        final(publication)@.reply_to == old(publication)@.reply_to,
        final(publication)@.payload == old(publication)@.payload,
{
    if let Some(delivery) = res {
        let t = final(publication)@.awaiting()->0;
        law_offers_leave_the_message(old(state)@, old(publication)@, true, t);
        law_offers_leave_the_message(final(state)@, final(publication)@, true, t);
    } else {
        law_offers_leave_the_message(
            old(state)@,
            old(publication)@,
            true,
            arbitrary(),
        );
    }
}

/// Deliveries come in order: first to the subscriptions outside queues that are left, one after
/// the other, then to the queues that are left, in each to the member whose turn it is and on from
/// there. There is one as long as something is left, and none after that.
pub proof fn law_deliveries_come_in_order(
    state: &mut ServerState,
    publication: &mut Publication,
    res: Option<Delivery>,
)
    requires
        call_ensures(ServerState::next_delivery, (state, publication), res),
        old(publication)@.wf(),
    ensures
        final(publication)@.wf(),
        (final(state)@, final(publication)@) == begun(old(state)@, old(publication)@),
        ({
            let p = old(publication)@;
            &&& res is None <==> p.direct.len() == 0 && p.groups.len() == 0
            &&& p.direct.len() > 0 ==> (res matches Some(delivery) && delivery.key@
                == p.direct[0].key && delivery.sender == p.direct[0].sender)
            &&& p.direct.len() == 0 && p.groups.len() > 0 && p.attempt is None ==> {
                let members = p.groups[0].members;
                let turn: int = if old(state)@.queue_counters.contains_key(p.groups[0].key) {
                    old(state)@.queue_counters[p.groups[0].key] as int
                } else {
                    0
                };
                let t = members[turn % members.len() as int];
                res matches Some(delivery) && delivery.key@ == t.key && delivery.sender == t.sender
            }
            &&& p.direct.len() == 0 && p.groups.len() > 0 && p.attempt is Some ==> {
                let members = p.groups[0].members;
                let a = p.attempt->0;
                let t = members[(a.start + a.tried) % members.len() as int];
                res matches Some(delivery) && delivery.key@ == t.key && delivery.sender == t.sender
            }
            &&& final(publication)@.direct == p.direct
            &&& final(publication)@.groups == p.groups
        }),
        final(state)@.clients == old(state)@.clients,
        final(state)@.subscriptions == old(state)@.subscriptions,
        final(state)@.config == old(state)@.config,
        final(state)@.server_id == old(state)@.server_id,
{
    law_offers_come_in_order(old(state)@, old(publication)@);
    law_publications_stay_well_formed(
        old(state)@.subscriptions,
        old(state)@,
        old(publication)@,
        true,
    );
}

/// A message that the channel took counts for its subscription, which ends if it thereby reaches
/// its limit, as is then told; one that it did not take removes the client. In a queue the next
/// member is up after a failure, and the queue is done after a success or when all were tried. The
/// message of the publication stays as it is.
pub proof fn law_reported_deliveries_count(
    state: &mut ServerState,
    publication: &mut Publication,
    sent: bool,
    ended: bool,
)
    requires
        call_ensures(ServerState::report_delivery, (state, publication, sent), ended),
        old(publication)@.wf(),
    ensures
        final(publication)@.wf(),
        (final(state)@, final(publication)@) == reported(old(state)@, old(publication)@, sent),
        final(publication)@.subject == old(publication)@.subject,
        final(publication)@.reply_to == old(publication)@.reply_to,
        final(publication)@.payload == old(publication)@.payload,
        old(publication)@.awaiting() is None ==> final(state)@ == old(state)@ && final(
            publication)@ == old(publication)@ && !ended,
        old(publication)@.awaiting() matches Some(t) ==> {
            let e = old(state)@.subscriptions[t.key];
            let d: int = if e.delivered == u64::MAX {
                u64::MAX as int
            } else {
                e.delivered + 1
            };
            let over = e.max_msgs is Some && d >= e.max_msgs->0;
            &&& ended <==> sent && old(state)@.subscriptions.contains_key(t.key) && over
            &&& sent ==> {
                &&& final(state)@.clients == old(state)@.clients
                &&& final(state)@.subscriptions.contains_key(t.key) <==> old(
                    state)@.subscriptions.contains_key(t.key) && !over
                &&& final(state)@.subscriptions.contains_key(t.key) ==> final(
                    state)@.subscriptions[t.key].delivered == d && final(
                    state)@.subscriptions[t.key].max_msgs == e.max_msgs && final(
                    state)@.subscriptions[t.key].subject == e.subject && final(
                    state)@.subscriptions[t.key].queue_group == e.queue_group && final(
                    state)@.subscriptions[t.key].sender == e.sender
                &&& forall|k: KeyView|
                    k != t.key ==> (#[trigger] final(state)@.subscriptions.contains_key(k) <==> old(
                        state)@.subscriptions.contains_key(k))
                &&& forall|k: KeyView|
                    k != t.key && #[trigger] final(state)@.subscriptions.contains_key(k) ==> final(
                        state)@.subscriptions[k] == old(state)@.subscriptions[k]
            }
            &&& !sent ==> {
                &&& forall|c: Seq<char>| #[trigger]
                    final(state)@.clients.contains_key(c) <==> old(state)@.clients.contains_key(c)
                        && c != t.key.client_id
                &&& forall|k: KeyView| #[trigger]
                    final(state)@.subscriptions.contains_key(k) <==> old(
                        state)@.subscriptions.contains_key(k) && k.client_id != t.key.client_id
                &&& forall|k: KeyView| #[trigger]
                    final(state)@.subscriptions.contains_key(k) ==> final(state)@.subscriptions[k]
                        == old(state)@.subscriptions[k]
            }
        },
        old(publication)@.direct.len() > 0 ==> final(publication)@.direct == old(
            publication)@.direct.skip(1) && final(publication)@.groups == old(publication)@.groups,
        old(publication)@.direct.len() == 0 && old(publication)@.attempt is Some ==> {
            let n = old(publication)@.groups[0].members.len();
            let a = old(publication)@.attempt->0;
            &&& final(publication)@.direct.len() == 0
            &&& if sent || a.tried + 1 == n {
                final(publication)@.groups == old(publication)@.groups.skip(1) && final(
                    publication)@.attempt is None
            } else {
                final(publication)@.groups == old(publication)@.groups && final(
                    publication)@.attempt is Some && final(publication)@.attempt->0.start
                    == a.start && final(publication)@.attempt->0.tried == a.tried + 1
            }
        },
{
    law_publications_stay_well_formed(
        old(state)@.subscriptions,
        old(state)@,
        old(publication)@,
        sent,
    );
    if let Some(t) = old(publication)@.awaiting() {
        law_taken_messages_count_once(old(state)@, t.key);
    }
}

/// The turn of a queue passes to the member after the one that took a message, and starts anew
/// after the last, as long as the queue has subscriptions to the subjects of its members; it is
/// forgotten if none took the message.
pub proof fn law_reported_deliveries_pass_the_turn(
    state: &mut ServerState,
    publication: &mut Publication,
    sent: bool,
    ended: bool,
)
    requires
        call_ensures(ServerState::report_delivery, (state, publication, sent), ended),
        old(publication)@.wf(),
        old(publication)@.direct.len() == 0,
        old(publication)@.attempt is Some,
    ensures
        ({
            let group = old(publication)@.groups[0];
            let n = group.members.len() as int;
            let a = old(publication)@.attempt->0;
            let live = forall|x: Seq<char>| #[trigger]
                group.key.subjects.contains(x) ==> exists|k: KeyView|
                    #[trigger]
                    final(state)@.subscriptions.contains_key(k) && final(
                        state)@.subscriptions[k].subject == x && final(
                        state)@.subscriptions[k].queue_group == Some(group.key.queue);
            &&& sent ==> (final(state)@.queue_counters.contains_key(group.key) <==> live)
            &&& sent && live ==> final(state)@.queue_counters[group.key] == (a.start + a.tried + 1)
                % n
            &&& !sent && a.tried + 1 == n ==> !final(state)@.queue_counters.contains_key(group.key)
        }),
{
    let group = old(publication)@.groups[0];
    let n = group.members.len() as int;
    let a = old(publication)@.attempt->0;
    let index = (a.start + a.tried) % n;
    let t = old(state)@.dispatched(old(publication)@.awaiting()->0.key, sent);
    law_served_queues_note_their_turn(t, group.key, Some(index), n);
    law_served_queues_note_their_turn(t, group.key, None, n);
    vstd::arithmetic::div_mod::lemma_mod_bound(a.start + a.tried, n);
    vstd::arithmetic::div_mod::lemma_add_mod_noop(a.start + a.tried, 1, n);
    vstd::arithmetic::div_mod::lemma_add_mod_noop(index, 1, n);
    vstd::arithmetic::div_mod::lemma_mod_twice(a.start + a.tried, n);
}

/// A publication is finished exactly if no subscription and no queue is left.
pub proof fn law_finished_publications_have_nothing_left(publication: &Publication, res: bool)
    requires
        call_ensures(Publication::is_finished, (publication,), res),
    ensures
        res <==> publication@.direct.len() == 0 && publication@.groups.len() == 0,
{
}

/// A message that was offered counts for the subscription, or removes its client, and the answer
/// is whether the channel took it.
pub proof fn law_dispatched_messages_count(
    state: &mut ServerState,
    key: &SubscriptionKey,
    sent: bool,
    res: bool,
)
    requires
        call_ensures(ServerState::dispatch_subscription, (state, key, sent), res),
    ensures
        final(state)@ == old(state)@.dispatched(key@, sent),
        res == sent,
        ({
            let k = KeyView { client_id: key.client_id@, sid: key.sid@ };
            let e = old(state)@.subscriptions[k];
            let d: int = if e.delivered == u64::MAX {
                u64::MAX as int
            } else {
                e.delivered + 1
            };
            let over = e.max_msgs is Some && d >= e.max_msgs->0;
            &&& sent ==> final(state)@.clients == old(state)@.clients
            &&& sent ==> (final(state)@.subscriptions.contains_key(k) <==> old(
                state)@.subscriptions.contains_key(k) && !over)
            &&& sent && final(state)@.subscriptions.contains_key(k) ==> final(
                state)@.subscriptions[k].delivered == d && final(state)@.subscriptions[k].max_msgs
                == e.max_msgs
            &&& forall|o: KeyView|
                sent && o != k ==> (#[trigger] final(state)@.subscriptions.contains_key(o) <==> old(
                    state)@.subscriptions.contains_key(o))
            &&& forall|o: KeyView|
                !sent ==> (#[trigger] final(state)@.subscriptions.contains_key(o) <==> old(
                    state)@.subscriptions.contains_key(o) && o.client_id != key.client_id@)
            &&& forall|o: KeyView|
                o != k && #[trigger] final(state)@.subscriptions.contains_key(o) ==> final(
                    state)@.subscriptions[o] == old(state)@.subscriptions[o]
            &&& !sent ==> !final(state)@.clients.contains_key(key.client_id@)
        }),
{
    law_taken_messages_count_once(old(state)@, key@);
}

/// A client that subscribes outside queues is listed, by the channel that it has, in each message
/// that is published after that on a subject that it covers, and in no other.
pub proof fn law_subscribers_are_listed(
    state: &mut ServerState,
    client_id: &str,
    sid: &str,
    pattern: &str,
    later: &ServerState,
    subject: &str,
    reply_to: Option<String>,
    payload: Vec<u8>,
    publication: Publication,
)
    requires
        call_ensures(
            ServerState::add_subscription,
            (state, client_id, sid, pattern, None),
            Ok(()),
        ),
        later@ == final(state)@,
        call_ensures(ServerState::publish, (later, subject, reply_to, payload), Ok(publication)),
    ensures
        ({
            let key = KeyView { client_id: client_id@, sid: sid@ };
            subject_matches(pattern@, subject@) <==> exists|i: int|
                0 <= i < publication@.direct.len() && (#[trigger] publication@.direct[i]).key == key
                    && publication@.direct[i].sender == old(state)@.clients[client_id@]
        }),
        forall|g: int, i: int|
            0 <= g < publication@.groups.len() && 0 <= i < publication@.groups[g].members.len()
                ==> (#[trigger] publication@.groups[g].members[i]).key != (KeyView {
                client_id: client_id@,
                sid: sid@,
            }),
{
    law_accepted_subscriptions_are_there(state, client_id, sid, pattern, None, Ok(()));
    law_published_messages_keep_their_parts(later, subject, reply_to, payload, Ok(publication));
    let key = KeyView { client_id: client_id@, sid: sid@ };
    assert(later@.subscriptions.contains_key(key));
}

/// A client that subscribes in a queue is listed among the members of that queue, and nowhere
/// else, in each message that is published after that on a subject that it covers, and in no
/// other.
pub proof fn law_queue_subscribers_are_listed(
    state: &mut ServerState,
    client_id: &str,
    sid: &str,
    pattern: &str,
    queue: String,
    later: &ServerState,
    subject: &str,
    reply_to: Option<String>,
    payload: Vec<u8>,
    publication: Publication,
)
    requires
        call_ensures(
            ServerState::add_subscription,
            (state, client_id, sid, pattern, Some(queue)),
            Ok(()),
        ),
        later@ == final(state)@,
        call_ensures(ServerState::publish, (later, subject, reply_to, payload), Ok(publication)),
    ensures
        ({
            let key = KeyView { client_id: client_id@, sid: sid@ };
            subject_matches(pattern@, subject@) <==> exists|g: int, i: int|
                0 <= g < publication@.groups.len() && 0 <= i < publication@.groups[g].members.len()
                    && publication@.groups[g].key.queue == queue@ && (
                #[trigger] publication@.groups[g].members[i]).key == key
                    && publication@.groups[g].members[i].sender == old(
                    state)@.clients[client_id@]
        }),
        forall|i: int|
            0 <= i < publication@.direct.len() ==> (#[trigger] publication@.direct[i]).key != (
            KeyView { client_id: client_id@, sid: sid@ }),
{
    law_accepted_subscriptions_are_there(state, client_id, sid, pattern, Some(queue), Ok(()));
    law_published_messages_keep_their_parts(later, subject, reply_to, payload, Ok(publication));
    let key = KeyView { client_id: client_id@, sid: sid@ };
    assert(later@.subscriptions.contains_key(key));
    if subject_matches(pattern@, subject@) {
        let (g, i) = choose|g: int, i: int|
            0 <= g < publication@.groups.len() && 0 <= i < publication@.groups[g].members.len() && (
            #[trigger] publication@.groups[g].members[i]).key == key;
        assert(publication@.groups[g].key.queue == queue@);
    }
}

/// The words of a refusal name what it is about.
pub proof fn law_refusals_name_what_they_are_about(error: &ServerError, words: String)
    requires
        call_ensures(ServerError::message, (error,), words),
    ensures
        match *error {
            ServerError::ClientNotFound(id) => words@ == "客户端不存在: "@ + id@,
            ServerError::SubscriptionNotFound(key) => words@ == "订阅不存在: "@ + (
            "SubscriptionKey { client_id: "@ + quoted(key.client_id@) + ", sid: "@
                + quoted(key.sid@) + " }"@),
            ServerError::InvalidSubject(e) => words@ == "科目解析失败: "@ + e@.message(),
            ServerError::PayloadTooLarge { size, max } => words@ == "消息负载超过限制: "@
                + decimal(size as nat) + " > "@ + decimal(max as nat),
        },
{
}

/// A key holds the client and the identifier that it was made of, and comes before another by
/// these.
pub proof fn law_keys_hold_what_they_are_made_of(
    client_id: &str,
    sid: &str,
    key: SubscriptionKey,
    other: &SubscriptionKey,
    before: bool,
)
    requires
        call_ensures(SubscriptionKey::new, (client_id, sid), key),
        call_ensures(SubscriptionKey::is_before, (&key, other), before),
    ensures
        key.client_id@ == client_id@,
        key.sid@ == sid@,
        before <==> text_before(client_id@, other.client_id@) || (client_id@
            == other.client_id@ && text_before(sid@, other.sid@)),
{
}

/// The usual configuration is port 4222 and payloads of at most a mebibyte.
pub proof fn law_the_usual_configuration(config: ServerConfig)
    requires
        call_ensures(ServerConfig::default, (), config),
    ensures
        config.port == 4222,
        config.max_payload == 1048576,
{
}

/// A key of a turn holds the name of its queue and the subjects that were put in, once each, in
/// whatever order.
pub proof fn law_queue_keys_hold_their_subjects(
    subject: &Subject,
    queue: &str,
    made: QueueKey,
    key: &mut QueueKey,
    look: &QueueKey,
    text: &str,
    name: &str,
    found: bool,
    copy: QueueKey,
    other: &QueueKey,
    same: bool,
)
    ensures
        call_ensures(QueueKey::new, (subject, queue), made) ==> made@.queue == queue@ && forall|
            x: Seq<char>,
        | #[trigger] made@.subjects.contains(x) <==> x == subject@,
        call_ensures(QueueKey::add_subject, (key, subject), ()) ==> final(key)@.queue == old(
            key)@.queue && forall|x: Seq<char>| #[trigger]
            final(key)@.subjects.contains(x) <==> old(key)@.subjects.contains(x) || x == subject@,
        call_ensures(QueueKey::queue, (look,), name) ==> name@ == look@.queue,
        call_ensures(QueueKey::has_subject, (look, text), found) ==> (found
            <==> look@.subjects.contains(text@)),
        call_ensures(QueueKey::clone, (look,), copy) ==> copy@ == look@,
        call_ensures(QueueKey::same_key, (look, other), same) ==> (same <==> look@ == other@),
{
}

/// Copies of keys and subscriptions are like them.
pub proof fn law_copies_are_alike(
    key: &SubscriptionKey,
    key_copy: SubscriptionKey,
    entry: &SubscriptionEntry,
    entry_copy: SubscriptionEntry,
    fault: SubjectError,
    error: ServerError,
)
    ensures
        call_ensures(SubscriptionKey::clone, (key,), key_copy) ==> key_copy.client_id@
            == key.client_id@ && key_copy.sid@ == key.sid@,
        call_ensures(SubscriptionEntry::clone, (entry,), entry_copy) ==> {
            &&& entry_copy.subject@ == entry.subject@
            &&& entry_copy.queue_group is None <==> entry.queue_group is None
            &&& entry_copy.queue_group matches Some(a) ==> (entry.queue_group matches Some(b) && a@
                == b@)
            &&& entry_copy.max_msgs == entry.max_msgs
            &&& entry_copy.delivered == entry.delivered
            &&& entry_copy.sender == entry.sender
        },
        call_ensures(<ServerError as From<SubjectError>>::from, (fault,), error) ==> error
            == ServerError::InvalidSubject(fault),
{
}

} // verus!
