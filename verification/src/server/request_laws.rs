//! What each request to the server and each offer of a message does, and what it leaves alone.
use vstd::prelude::*;

use crate::outside::quoted;
use crate::server::laws::{
    after_messages, are_published, arrived, law_limited_subscription_gets_its_messages, run,
};
use crate::server::publish::{
    ascending, begun, interested, is_plan, lists, reported, PublicationView, TargetView,
};
use crate::server::queue::QueueView;
use crate::server::{
    loses_subject, queue_live, subject_live, KeyView, ServerError, ServerErrorView, ServerView,
    SubscriptionEntry, SubscriptionKey,
};
use crate::subjects::{subject_error, subject_matches, SubjectErrorView};
use crate::text::{decimal, law_text_order_irreflexive, text_before};
use crate::wire::MessageView;

verus! {

/// To register a client gives it its channel, and does nothing else.
pub proof fn law_registering_gives_a_channel(s: ServerView, client_id: Seq<char>, sender: u64)
    ensures
        ({
            let t = s.registered(client_id, sender);
            &&& t.clients.contains_key(client_id)
            &&& t.clients[client_id] == sender
            &&& forall|c: Seq<char>|
                c != client_id ==> (#[trigger] t.clients.contains_key(c) <==> s.clients.contains_key(
                    c,
                ))
            &&& forall|c: Seq<char>|
                c != client_id && #[trigger] t.clients.contains_key(c) ==> t.clients[c]
                    == s.clients[c]
            &&& t.subscriptions == s.subscriptions
            &&& t.queue_counters == s.queue_counters
            &&& t.config == s.config
            &&& t.server_id == s.server_id
        }),
{
}

/// To remove a client leaves the other clients as they were, and each turn, unless it is kept for
/// a subject to which the client alone had subscriptions in the queue.
pub proof fn law_unregistering_leaves_the_others(s: ServerView, client_id: Seq<char>)
    ensures
        ({
            let t = s.unregistered(client_id);
            &&& t.config == s.config
            &&& t.server_id == s.server_id
            &&& forall|c: Seq<char>|
                c != client_id ==> (#[trigger] t.clients.contains_key(c) <==> s.clients.contains_key(
                    c,
                ))
            &&& forall|c: Seq<char>| #[trigger]
                t.clients.contains_key(c) ==> t.clients[c] == s.clients[c]
            &&& forall|q: QueueView| #[trigger]
                t.queue_counters.contains_key(q) ==> s.queue_counters.contains_key(q)
                    && t.queue_counters[q] == s.queue_counters[q]
            &&& forall|q: QueueView|
                #[trigger]
                s.queue_counters.contains_key(q) && !t.queue_counters.contains_key(q)
                    ==> exists|k: KeyView|
                    #[trigger]
                    s.subscriptions.contains_key(k) && k.client_id == client_id
                        && s.subscriptions[k].queue_group == Some(q.queue) && q.subjects.contains(
                        s.subscriptions[k].subject,
                    )
            &&& forall|q: QueueView, k: KeyView|
                #![trigger t.queue_counters.contains_key(q), s.subscriptions.contains_key(k)]
                s.subscriptions.contains_key(k) && s.subscriptions[k].queue_group == Some(q.queue)
                    && q.subjects.contains(s.subscriptions[k].subject)
                    && t.queue_counters.contains_key(q) ==> exists|other: KeyView|
                    #[trigger]
                    s.subscriptions.contains_key(other) && other.client_id != client_id
                        && s.subscriptions[other].subject == s.subscriptions[k].subject
                        && s.subscriptions[other].queue_group == Some(q.queue)
        }),
{
    let t = s.unregistered(client_id);
    assert forall|q: QueueView|
        #[trigger]
        s.queue_counters.contains_key(q) && !t.queue_counters.contains_key(
            q,
        ) implies exists|k: KeyView|
        #[trigger]
        s.subscriptions.contains_key(k) && k.client_id == client_id
            && s.subscriptions[k].queue_group == Some(q.queue) && q.subjects.contains(
            s.subscriptions[k].subject,
        ) by {
        assert(loses_subject(s.subscriptions, t.subscriptions, q));
        let x = choose|x: Seq<char>|
            #[trigger]
            q.subjects.contains(x) && subject_live(s.subscriptions, x, q.queue) && !subject_live(
                t.subscriptions,
                x,
                q.queue,
            );
        let k = choose|k: KeyView| #[trigger]
            s.subscriptions.contains_key(k) && s.subscriptions[k].subject == x
                && s.subscriptions[k].queue_group == Some(q.queue);
        if k.client_id != client_id {
            assert(t.subscriptions.contains_key(k));
        }
    }
    assert forall|q: QueueView, k: KeyView|
        #![trigger t.queue_counters.contains_key(q), s.subscriptions.contains_key(k)]
        s.subscriptions.contains_key(k) && s.subscriptions[k].queue_group == Some(q.queue)
            && q.subjects.contains(s.subscriptions[k].subject) && t.queue_counters.contains_key(
            q,
        ) implies exists|other: KeyView|
        #[trigger]
        s.subscriptions.contains_key(other) && other.client_id != client_id
            && s.subscriptions[other].subject == s.subscriptions[k].subject
            && s.subscriptions[other].queue_group == Some(q.queue) by {
        let x = s.subscriptions[k].subject;
        assert(subject_live(s.subscriptions, x, q.queue));
        assert(!loses_subject(s.subscriptions, t.subscriptions, q));
        assert(subject_live(t.subscriptions, x, q.queue));
        let other = choose|other: KeyView| #[trigger]
            t.subscriptions.contains_key(other) && t.subscriptions[other].subject == x
                && t.subscriptions[other].queue_group == Some(q.queue);
        assert(s.subscriptions.contains_key(other));
    }
}

/// To subscribe succeeds exactly if the subject is one and the client is registered. The
/// subscription is then there, to that subject and in that queue, or in none, with the channel of
/// the client and without a limit. Nothing else changes.
pub proof fn law_subscribing_adds_the_subscription(
    s: ServerView,
    client_id: Seq<char>,
    sid: Seq<char>,
    subject: Seq<char>,
    queue_group: Option<Seq<char>>,
)
    ensures
        ({
            let (t, answer) = s.subscribed(client_id, sid, subject, queue_group);
            let key = KeyView { client_id, sid };
            &&& answer is Ok <==> subject_error(subject) is None && s.clients.contains_key(
                client_id,
            )
            &&& answer is Ok ==> {
                &&& t.subscriptions.contains_key(key)
                &&& t.subscriptions[key].subject == subject
                &&& t.subscriptions[key].queue_group == queue_group
                &&& t.subscriptions[key].max_msgs is None
                &&& t.subscriptions[key].delivered == 0
                &&& t.subscriptions[key].sender == s.clients[client_id]
            }
            &&& forall|k: KeyView|
                k != key ==> (#[trigger] t.subscriptions.contains_key(k)
                    <==> s.subscriptions.contains_key(k))
            &&& forall|k: KeyView|
                k != key && #[trigger] t.subscriptions.contains_key(k) ==> t.subscriptions[k]
                    == s.subscriptions[k]
            &&& t.clients == s.clients
            &&& t.queue_counters == s.queue_counters
            &&& t.config == s.config
            &&& t.server_id == s.server_id
        }),
{
}

/// A request to subscribe is refused for its subject, with what is wrong with it, or else for the
/// client that is not there.
pub proof fn law_refused_subscriptions_say_why(
    s: ServerView,
    client_id: Seq<char>,
    sid: Seq<char>,
    subject: Seq<char>,
    queue_group: Option<Seq<char>>,
)
    ensures
        subject_error(subject) matches Some(error) ==> s.subscribed(
            client_id,
            sid,
            subject,
            queue_group,
        ).1 == Err::<(), ServerErrorView>(ServerErrorView::InvalidSubject(error)),
        subject_error(subject) is None && !s.clients.contains_key(client_id) ==> s.subscribed(
            client_id,
            sid,
            subject,
            queue_group,
        ).1 == Err::<(), ServerErrorView>(ServerErrorView::ClientNotFound(client_id)),
{
}

/// To set a limit succeeds exactly if the subscription is there. Its limit is then the one that
/// was asked for, what it got so far is as before, and nothing else changes.
pub proof fn law_limiting_sets_the_limit(s: ServerView, key: KeyView, max_msgs: Option<u64>)
    ensures
        ({
            let (t, answer) = s.limited(key, max_msgs);
            &&& answer == if s.subscriptions.contains_key(key) {
                Ok::<(), ServerErrorView>(())
            } else {
                Err(ServerErrorView::SubscriptionNotFound(key))
            }
            &&& forall|k: KeyView| #[trigger]
                t.subscriptions.contains_key(k) <==> s.subscriptions.contains_key(k)
            &&& s.subscriptions.contains_key(key) ==> {
                &&& t.subscriptions[key].max_msgs == max_msgs
                &&& t.subscriptions[key].delivered == s.subscriptions[key].delivered
                &&& t.subscriptions[key].subject == s.subscriptions[key].subject
                &&& t.subscriptions[key].queue_group == s.subscriptions[key].queue_group
                &&& t.subscriptions[key].sender == s.subscriptions[key].sender
            }
            &&& forall|k: KeyView|
                k != key && #[trigger] t.subscriptions.contains_key(k) ==> t.subscriptions[k]
                    == s.subscriptions[k]
            &&& t.clients == s.clients
            &&& t.queue_counters == s.queue_counters
            &&& t.config == s.config
            &&& t.server_id == s.server_id
        }),
{
}

/// A limit counts from the start of the subscription: one outside queues that got fewer than `max`
/// messages when the limit was set to `max` gets as many more of those that it covers as are
/// missing from `max`, and is then gone.
pub proof fn law_limits_count_from_the_start(
    s: ServerView,
    key: KeyView,
    max: u64,
    plans: Seq<PublicationView>,
    n: nat,
)
    requires
        s.subscriptions.contains_key(key),
        s.subscriptions[key].queue_group is None,
        s.subscriptions[key].delivered < max,
        are_published(s.limited(key, Some(max)).0, plans),
        forall|i: int|
            0 <= i < plans.len() ==> subject_matches(
                s.subscriptions[key].subject,
                (#[trigger] plans[i]).subject,
            ),
        n <= plans.len(),
    ensures
        s.subscriptions[key].delivered + arrived(s.limited(key, Some(max)).0, plans, key, n) <= max,
        n >= max - s.subscriptions[key].delivered ==> s.subscriptions[key].delivered + arrived(
            s.limited(key, Some(max)).0,
            plans,
            key,
            n,
        ) == max,
        n < max - s.subscriptions[key].delivered ==> arrived(
            s.limited(key, Some(max)).0,
            plans,
            key,
            n,
        ) == n,
        after_messages(s.limited(key, Some(max)).0, plans, n).subscriptions.contains_key(key)
            <==> s.subscriptions[key].delivered + n < max,
{
    let t = s.limited(key, Some(max)).0;
    law_limited_subscription_gets_its_messages(t, key, max, plans, n);
}

/// To end a subscription succeeds exactly if it is there. It is then gone, and no other changes.
/// Turns are forgotten only if they are kept for its subject in its queue and it was the last one
/// there, and then all of them.
pub proof fn law_unsubscribing_ends_the_subscription(s: ServerView, key: KeyView)
    ensures
        ({
            let (t, answer) = s.unsubscribed(key);
            let e = s.subscriptions[key];
            let last = forall|k: KeyView| #[trigger]
                s.subscriptions.contains_key(k) && k != key ==> s.subscriptions[k].subject
                    != e.subject || s.subscriptions[k].queue_group != e.queue_group;
            &&& answer == if s.subscriptions.contains_key(key) {
                Ok::<(), ServerErrorView>(())
            } else {
                Err(ServerErrorView::SubscriptionNotFound(key))
            }
            &&& forall|k: KeyView| #[trigger]
                t.subscriptions.contains_key(k) <==> s.subscriptions.contains_key(k) && k != key
            &&& forall|k: KeyView| #[trigger]
                t.subscriptions.contains_key(k) ==> t.subscriptions[k] == s.subscriptions[k]
            &&& forall|q: QueueView| #[trigger]
                t.queue_counters.contains_key(q) <==> s.queue_counters.contains_key(q) && !(
                s.subscriptions.contains_key(key) && e.queue_group == Some(q.queue)
                    && q.subjects.contains(e.subject) && last)
            &&& forall|q: QueueView| #[trigger]
                t.queue_counters.contains_key(q) ==> t.queue_counters[q] == s.queue_counters[q]
            &&& t.clients == s.clients
            &&& t.config == s.config
            &&& t.server_id == s.server_id
        }),
{
    if s.subscriptions.contains_key(key) {
        let t = s.unsubscribed(key).0;
        let e = s.subscriptions[key];
        if e.queue_group is Some {
            let queue = e.queue_group->0;
            let last = forall|k: KeyView| #[trigger]
                s.subscriptions.contains_key(k) && k != key ==> s.subscriptions[k].subject
                    != e.subject || s.subscriptions[k].queue_group != e.queue_group;
            if subject_live(t.subscriptions, e.subject, queue) {
                let k = choose|k: KeyView| #[trigger]
                    t.subscriptions.contains_key(k) && t.subscriptions[k].subject == e.subject
                        && t.subscriptions[k].queue_group == Some(queue);
                assert(s.subscriptions.contains_key(k) && k != key);
                assert(!last);
            } else if !last {
                let k = choose|k: KeyView| #[trigger]
                    s.subscriptions.contains_key(k) && k != key && s.subscriptions[k].subject
                        == e.subject && s.subscriptions[k].queue_group == e.queue_group;
                assert(t.subscriptions.contains_key(k));
            }
        }
    }
}

/// A message that the channel takes counts once for its subscription: it stays with one more
/// message delivered, or ends if that reaches its limit. No other subscription changes, and no
/// client.
pub proof fn law_taken_messages_count_once(s: ServerView, key: KeyView)
    ensures
        ({
            let t = s.dispatched(key, true);
            let e = s.subscriptions[key];
            let d: int = if e.delivered == u64::MAX {
                u64::MAX as int
            } else {
                e.delivered + 1
            };
            let over = e.max_msgs is Some && d >= e.max_msgs->0;
            &&& t.subscriptions.contains_key(key) <==> s.subscriptions.contains_key(key) && !over
            &&& t.subscriptions.contains_key(key) ==> {
                &&& t.subscriptions[key].delivered == d
                &&& t.subscriptions[key].max_msgs == e.max_msgs
                &&& t.subscriptions[key].subject == e.subject
                &&& t.subscriptions[key].queue_group == e.queue_group
                &&& t.subscriptions[key].sender == e.sender
            }
            &&& s.at_limit(key) <==> s.subscriptions.contains_key(key)
                && !t.subscriptions.contains_key(key)
            &&& s.at_limit(key) ==> t == s.unsubscribed(key).0
            &&& !s.at_limit(key) ==> t.queue_counters == s.queue_counters
            &&& forall|k: KeyView|
                k != key ==> (#[trigger] t.subscriptions.contains_key(k)
                    <==> s.subscriptions.contains_key(k))
            &&& forall|k: KeyView|
                k != key && #[trigger] t.subscriptions.contains_key(k) ==> t.subscriptions[k]
                    == s.subscriptions[k]
            &&& t.clients == s.clients
            &&& t.config == s.config
            &&& t.server_id == s.server_id
        }),
{
}

/// A client whose channel does not take a message is removed, as if it had gone.
pub proof fn law_refused_messages_remove_the_client(s: ServerView, key: KeyView)
    ensures
        s.dispatched(key, false) == s.unregistered(key.client_id),
        !s.dispatched(key, false).clients.contains_key(key.client_id),
        forall|k: KeyView| #[trigger]
            s.dispatched(key, false).subscriptions.contains_key(k) <==> s.subscriptions.contains_key(
                k,
            ) && k.client_id != key.client_id,
{
}

/// A publication holds what was published: the subject, the subject for replies and the payload.
pub proof fn law_publications_hold_what_was_published(
    s: ServerView,
    subject: Seq<char>,
    reply_to: Option<Seq<char>>,
    payload: Seq<u8>,
    p: PublicationView,
)
    requires
        is_plan(s.subscriptions, subject, reply_to, payload, p),
    ensures
        p.subject == subject,
        p.reply_to == reply_to,
        p.payload == payload,
        p.attempt is None,
{
}

/// A publication is for the subscriptions whose subject covers that of the message: each outside
/// queues is listed once by itself, each in a queue in the one group of that queue, and no other.
pub proof fn law_publications_list_whom_they_are_for(
    s: ServerView,
    subject: Seq<char>,
    reply_to: Option<Seq<char>>,
    payload: Seq<u8>,
    p: PublicationView,
)
    requires
        is_plan(s.subscriptions, subject, reply_to, payload, p),
    ensures
        forall|k: KeyView|
            #[trigger]
            s.subscriptions.contains_key(k) && subject_matches(s.subscriptions[k].subject, subject)
                && s.subscriptions[k].queue_group is None ==> exists|i: int|
                0 <= i < p.direct.len() && (#[trigger] p.direct[i]).key == k,
        forall|k: KeyView|
            #[trigger]
            s.subscriptions.contains_key(k) && subject_matches(s.subscriptions[k].subject, subject)
                && s.subscriptions[k].queue_group is Some ==> exists|g: int, i: int|
                0 <= g < p.groups.len() && 0 <= i < p.groups[g].members.len() && (
                #[trigger] p.groups[g].members[i]).key == k,
        forall|i: int|
            0 <= i < p.direct.len() ==> {
                let k = (#[trigger] p.direct[i]).key;
                &&& s.subscriptions.contains_key(k)
                &&& subject_matches(s.subscriptions[k].subject, subject)
                &&& s.subscriptions[k].queue_group is None
                &&& p.direct[i].sender == s.subscriptions[k].sender
            },
        forall|g: int, i: int|
            0 <= g < p.groups.len() && 0 <= i < p.groups[g].members.len() ==> {
                let k = (#[trigger] p.groups[g].members[i]).key;
                &&& s.subscriptions.contains_key(k)
                &&& subject_matches(s.subscriptions[k].subject, subject)
                &&& s.subscriptions[k].queue_group == Some(p.groups[g].key.queue)
                &&& p.groups[g].members[i].sender == s.subscriptions[k].sender
            },
        forall|i: int, j: int|
            0 <= i < j < p.direct.len() ==> (#[trigger] p.direct[i]).key != (
            #[trigger] p.direct[j]).key,
        forall|g: int, h: int|
            0 <= g < h < p.groups.len() ==> (#[trigger] p.groups[g]).key.queue != (
            #[trigger] p.groups[h]).key.queue,
        forall|g: int, i: int, j: int|
            #![trigger p.groups[g].members[i], p.groups[g].members[j]]
            0 <= g < p.groups.len() && 0 <= i < j < p.groups[g].members.len()
                ==> p.groups[g].members[i].key.before(p.groups[g].members[j].key),
{
    assert forall|k: KeyView|
        #[trigger]
        s.subscriptions.contains_key(k) && subject_matches(s.subscriptions[k].subject, subject)
            && s.subscriptions[k].queue_group is None implies exists|i: int|
        0 <= i < p.direct.len() && (#[trigger] p.direct[i]).key == k by {
        assert(interested(s.subscriptions, subject, k));
    }
    assert forall|k: KeyView|
        #[trigger]
        s.subscriptions.contains_key(k) && subject_matches(s.subscriptions[k].subject, subject)
            && s.subscriptions[k].queue_group is Some implies exists|g: int, i: int|
        0 <= g < p.groups.len() && 0 <= i < p.groups[g].members.len() && (
        #[trigger] p.groups[g].members[i]).key == k by {
        assert(interested(s.subscriptions, subject, k));
        let g = choose|g: int|
            0 <= g < p.groups.len() && (#[trigger] p.groups[g]).key.queue
                == s.subscriptions[k].queue_group->0 && lists(
                p.groups[g].members,
                k,
            );
        let members = p.groups[g].members;
        let i = choose|i: int| 0 <= i < members.len() && (#[trigger] members[i]).key == k;
        assert(p.groups[g].members[i].key == k);
    }
    assert forall|g: int, i: int, j: int|
        #![trigger p.groups[g].members[i], p.groups[g].members[j]]
        0 <= g < p.groups.len() && 0 <= i < j
            < p.groups[g].members.len() implies p.groups[g].members[i].key.before(
        p.groups[g].members[j].key,
    ) by {
        assert(ascending(p.groups[g].members));
    }
}

/// Every message of a publication is whole, whomever it is for, in a queue or not, and however far
/// the publication got: it has the subject, the subject for replies and the payload that were
/// published, and the identifier of its subscription.
pub proof fn law_messages_are_whole(
    s: ServerView,
    subject: Seq<char>,
    reply_to: Option<Seq<char>>,
    payload: Seq<u8>,
    p: PublicationView,
    outcomes: Seq<bool>,
    t: TargetView,
)
    requires
        is_plan(s.subscriptions, subject, reply_to, payload, p),
    ensures
        run(s, p, outcomes).publication.message_for(t) == (MessageView::Msg {
            subject,
            sid: t.key.sid,
            reply_to,
            payload,
        }),
        begun(run(s, p, outcomes).state, run(s, p, outcomes).publication).1.message_for(t)
            == (MessageView::Msg { subject, sid: t.key.sid, reply_to, payload }),
{
    lemma_run_keeps_message(s, p, outcomes);
}

proof fn lemma_run_keeps_message(s: ServerView, p: PublicationView, outcomes: Seq<bool>)
    ensures
        run(s, p, outcomes).publication.subject == p.subject,
        run(s, p, outcomes).publication.reply_to == p.reply_to,
        run(s, p, outcomes).publication.payload == p.payload,
    decreases outcomes.len(),
{
    let (s1, p1) = begun(s, p);
    if outcomes.len() > 0 && p1.awaiting() is Some {
        let (s2, p2) = reported(s1, p1, outcomes[0]);
        lemma_run_keeps_message(s2, p2, outcomes.drop_first());
    }
}

/// To settle or to report an offer changes nothing of the message, whatever publication it is of.
pub proof fn law_offers_leave_the_message(
    s: ServerView,
    p: PublicationView,
    sent: bool,
    t: TargetView,
)
    ensures
        p.message_for(t) == (MessageView::Msg {
            subject: p.subject,
            sid: t.key.sid,
            reply_to: p.reply_to,
            payload: p.payload,
        }),
        begun(s, p).1.subject == p.subject && begun(s, p).1.reply_to == p.reply_to && begun(
            s,
            p,
        ).1.payload == p.payload,
        reported(s, p, sent).1.subject == p.subject && reported(s, p, sent).1.reply_to
            == p.reply_to && reported(s, p, sent).1.payload == p.payload,
{
}

/// The next offer is to the first subscription outside queues that is left, or else, in the first
/// queue that is left, to the member whose turn it is, on from which the others follow.
pub proof fn law_offers_come_in_order(s: ServerView, p: PublicationView)
    requires
        p.wf(),
    ensures
        ({
            let r = begun(s, p).1;
            &&& r.direct == p.direct
            &&& r.groups == p.groups
            &&& p.direct.len() > 0 ==> r.awaiting() == Some(p.direct[0])
            &&& p.direct.len() == 0 && p.groups.len() > 0 && p.attempt is None ==> {
                let members = p.groups[0].members;
                let turn: int = if s.queue_counters.contains_key(p.groups[0].key) {
                    s.queue_counters[p.groups[0].key] as int
                } else {
                    0
                };
                r.awaiting() == Some(members[turn % members.len() as int])
            }
            &&& p.direct.len() == 0 && p.groups.len() > 0 && p.attempt is Some ==> {
                let members = p.groups[0].members;
                let a = p.attempt->0;
                r.awaiting() == Some(members[(a.start + a.tried) % members.len() as int])
            }
            &&& p.direct.len() == 0 && p.groups.len() == 0 ==> r.awaiting() is None
        }),
        begun(s, p).0.subscriptions == s.subscriptions,
        begun(s, p).0.clients == s.clients,
        begun(s, p).0.config == s.config,
        begun(s, p).0.server_id == s.server_id,
        forall|q: QueueView| #[trigger] begun(s, p).0.turn(q) == s.turn(q),
{
    if p.groups.len() > 0 {
        let n = p.groups[0].members.len() as int;
        assert(n > 0);
        vstd::arithmetic::div_mod::lemma_mod_bound(s.turn(p.groups[0].key) as int, n);
        vstd::arithmetic::div_mod::lemma_small_mod(
            (s.turn(p.groups[0].key) as int % n) as nat,
            n as nat,
        );
    }
}

/// What a queue notes once it is served changes no client, no subscription and no turn but the one
/// that it is about.
pub proof fn law_served_queues_note_their_turn(
    s: ServerView,
    q: QueueView,
    selected: Option<int>,
    len: int,
)
    requires
        0 < len <= usize::MAX,
    ensures
        ({
            let t = s.served(q, selected, len);
            &&& t.clients == s.clients
            &&& t.subscriptions == s.subscriptions
            &&& t.config == s.config
            &&& t.server_id == s.server_id
            &&& forall|v: QueueView|
                v != q ==> (#[trigger] t.queue_counters.contains_key(v)
                    <==> s.queue_counters.contains_key(v))
            &&& forall|v: QueueView|
                v != q && #[trigger] t.queue_counters.contains_key(v) ==> t.queue_counters[v]
                    == s.queue_counters[v]
            &&& t.queue_counters.contains_key(q) <==> selected is Some && forall|x: Seq<char>|
                #[trigger]
                q.subjects.contains(x) ==> exists|k: KeyView|
                    #[trigger]
                    s.subscriptions.contains_key(k) && s.subscriptions[k].subject == x
                        && s.subscriptions[k].queue_group == Some(q.queue)
            &&& t.queue_counters.contains_key(q) ==> t.queue_counters[q] == (selected->0 + 1) % len
        }),
{
    vstd::arithmetic::div_mod::lemma_mod_bound(selected->0 + 1, len);
    if queue_live(s.subscriptions, q) {
        assert forall|x: Seq<char>| #[trigger] q.subjects.contains(x) implies exists|k: KeyView|
            #[trigger]
            s.subscriptions.contains_key(k) && s.subscriptions[k].subject == x
                && s.subscriptions[k].queue_group == Some(q.queue) by {
            assert(subject_live(s.subscriptions, x, q.queue));
        }
    } else {
        let x = choose|x: Seq<char>| #[trigger]
            q.subjects.contains(x) && !subject_live(s.subscriptions, x, q.queue);
        assert(q.subjects.contains(x));
    }
}

/// The words of a refusal name what it is about.
pub proof fn law_server_error_words(
    id: Seq<char>,
    key: KeyView,
    error: SubjectErrorView,
    size: nat,
    max: nat,
)
    ensures
        ServerErrorView::ClientNotFound(id).message() == "客户端不存在: "@ + id,
        ServerErrorView::SubscriptionNotFound(key).message()
            == "订阅不存在: "@ + ("SubscriptionKey { client_id: "@ + quoted(key.client_id)
            + ", sid: "@ + quoted(key.sid) + " }"@),
        ServerErrorView::InvalidSubject(error).message() == "科目解析失败: "@ + error.message(),
        (ServerErrorView::PayloadTooLarge { size, max }).message() == "消息负载超过限制: "@
            + decimal(size) + " > "@ + decimal(max),
{
}

/// The view of a refusal shows what it holds.
pub proof fn law_server_errors_show_what_they_hold(error: ServerError)
    ensures
        match error {
            ServerError::ClientNotFound(id) => error@ == ServerErrorView::ClientNotFound(id@),
            ServerError::SubscriptionNotFound(key) => error@
                == ServerErrorView::SubscriptionNotFound(
                KeyView { client_id: key.client_id@, sid: key.sid@ },
            ),
            ServerError::InvalidSubject(e) => error@ == ServerErrorView::InvalidSubject(e@),
            ServerError::PayloadTooLarge { size, max } => error@
                == (ServerErrorView::PayloadTooLarge { size: size as nat, max: max as nat }),
        },
{
}

/// The views of keys and subscriptions show what they hold.
pub proof fn law_subscriptions_show_what_they_hold(key: SubscriptionKey, entry: SubscriptionEntry)
    ensures
        key@.client_id == key.client_id@,
        key@.sid == key.sid@,
        entry@.subject == entry.subject@,
        entry.queue_group matches Some(queue) ==> entry@.queue_group == Some(queue@),
        entry.queue_group is None ==> entry@.queue_group is None,
        entry@.max_msgs == entry.max_msgs,
        entry@.delivered == entry.delivered,
        entry@.sender == entry.sender,
{
}

/// Keys are ordered by the client first, and by the identifier where the client is the same.
pub proof fn law_keys_are_ordered_by_client_and_identifier(a: KeyView, b: KeyView)
    ensures
        a.client_id != b.client_id ==> (a.before(b) <==> text_before(
            a.client_id,
            b.client_id,
        )),
        a.client_id == b.client_id ==> (a.before(b) <==> text_before(a.sid, b.sid)),
{
    law_text_order_irreflexive(a.client_id);
}

} // verus!
