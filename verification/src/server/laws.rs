//! What holds of the server as a whole.
use vstd::prelude::*;

use crate::server::publish::{
    begun, groups_list, interested, is_plan, is_target, law_key_order_total, lists, member_at,
    one_more, reported, subjects_of, Attempt, GroupView, PublicationView, TargetView,
};
use crate::server::queue::QueueView;
use crate::server::{
    loses_subject, queue_live, subject_live, EntryView, KeyView, ServerErrorView, ServerView,
};
use crate::subjects::subject_matches;

verus! {

/// Every subscription belongs to a client that is registered.
pub open spec fn owned(s: ServerView) -> bool {
    forall|k: KeyView| #[trigger]
        s.subscriptions.contains_key(k) ==> s.clients.contains_key(k.client_id)
}

/// Every turn that is kept is kept for subjects to which the queue has subscriptions.
pub open spec fn turns_live(s: ServerView) -> bool {
    forall|q: QueueView| #[trigger]
        s.queue_counters.contains_key(q) ==> queue_live(s.subscriptions, q)
}

/// A server without clients has no subscription without its client, and no turn for subjects
/// without subscriptions.
pub proof fn law_new_server(s: ServerView)
    requires
        s.clients == Map::<Seq<char>, u64>::empty(),
        s.subscriptions == Map::<KeyView, EntryView>::empty(),
        s.queue_counters == Map::<QueueView, usize>::empty(),
    ensures
        owned(s),
        turns_live(s),
{
}

/// No request leaves a subscription without its client.
pub proof fn law_requests_keep_owners(
    s: ServerView,
    client_id: Seq<char>,
    sender: u64,
    sid: Seq<char>,
    subject: Seq<char>,
    queue_group: Option<Seq<char>>,
    key: KeyView,
    max_msgs: Option<u64>,
)
    requires
        owned(s),
    ensures
        owned(s.registered(client_id, sender)),
        owned(s.unregistered(client_id)),
        owned(s.subscribed(client_id, sid, subject, queue_group).0),
        owned(s.limited(key, max_msgs).0),
        owned(s.unsubscribed(key).0),
{
}

/// No delivery leaves a subscription without its client.
pub proof fn law_deliveries_keep_owners(s: ServerView, p: PublicationView, sent: bool)
    requires
        owned(s),
    ensures
        owned(begun(s, p).0),
        owned(reported(s, p, sent).0),
{
    if p.awaiting() is Some {
        let t = s.dispatched(p.awaiting()->0.key, sent);
        assert(owned(t));
    }
}

/// After a client is gone no subscription of it is left, those of others are as they were, and
/// to remove it again changes nothing.
pub proof fn law_unregistered_client_leaves_nothing(s: ServerView, client_id: Seq<char>)
    ensures
        !s.unregistered(client_id).clients.contains_key(client_id),
        forall|k: KeyView| #[trigger]
            s.unregistered(client_id).subscriptions.contains_key(k) <==> s.subscriptions.contains_key(
                k,
            ) && k.client_id != client_id,
        forall|k: KeyView| #[trigger]
            s.unregistered(client_id).subscriptions.contains_key(k)
                ==> s.unregistered(client_id).subscriptions[k] == s.subscriptions[k],
        s.unregistered(client_id).unregistered(client_id) == s.unregistered(client_id),
{
    let t = s.unregistered(client_id);
    let u = t.unregistered(client_id);
    assert(u.subscriptions =~= t.subscriptions);
    assert(u.clients =~= t.clients);
    assert(u.queue_counters =~= t.queue_counters);
    assert(u =~= t);
}

/// A request that is refused changes nothing.
pub proof fn law_refused_requests_change_nothing(
    s: ServerView,
    client_id: Seq<char>,
    sid: Seq<char>,
    subject: Seq<char>,
    queue_group: Option<Seq<char>>,
    key: KeyView,
    max_msgs: Option<u64>,
)
    ensures
        s.subscribed(client_id, sid, subject, queue_group).1 is Err ==> s.subscribed(
            client_id,
            sid,
            subject,
            queue_group,
        ).0 == s,
        s.limited(key, max_msgs).1 is Err ==> s.limited(key, max_msgs).0 == s,
        s.unsubscribed(key).1 is Err ==> s.unsubscribed(key).0 == s,
{
}

/// Requests keep no turn for a subject to which the queue has no subscription. Left out is a
/// request to subscribe under an identifier that is in use: what it replaces may have been the
/// last subscription of a queue to its subject, the turns of which are then kept.
pub proof fn law_requests_keep_turns_live(
    s: ServerView,
    client_id: Seq<char>,
    sender: u64,
    sid: Seq<char>,
    subject: Seq<char>,
    queue_group: Option<Seq<char>>,
    key: KeyView,
    max_msgs: Option<u64>,
)
    requires
        turns_live(s),
        !s.subscriptions.contains_key(KeyView { client_id, sid }),
    ensures
        turns_live(s.registered(client_id, sender)),
        turns_live(s.unregistered(client_id)),
        turns_live(s.subscribed(client_id, sid, subject, queue_group).0),
        turns_live(s.limited(key, max_msgs).0),
        turns_live(s.unsubscribed(key).0),
{
    let r = s.subscribed(client_id, sid, subject, queue_group).0;
    assert forall|q: QueueView| #[trigger] r.queue_counters.contains_key(q) implies queue_live(
        r.subscriptions,
        q,
    ) by {
        lemma_live_kept(s.subscriptions, r.subscriptions, q);
    }
    let l = s.limited(key, max_msgs).0;
    assert forall|q: QueueView| #[trigger] l.queue_counters.contains_key(q) implies queue_live(
        l.subscriptions,
        q,
    ) by {
        lemma_live_kept(s.subscriptions, l.subscriptions, q);
    }
    if s.subscriptions.contains_key(key) {
        lemma_dropped_turns(s, key, None);
    }
    lemma_unregistered_turns(s, client_id, None);
}

/// A queue stays live where its subscriptions stay.
proof fn lemma_live_kept(
    before: Map<KeyView, EntryView>,
    after: Map<KeyView, EntryView>,
    q: QueueView,
)
    requires
        queue_live(before, q),
        forall|k: KeyView| #[trigger]
            before.contains_key(k) ==> after.contains_key(k) && after[k].subject
                == before[k].subject && after[k].queue_group == before[k].queue_group,
    ensures
        queue_live(after, q),
{
    assert forall|x: Seq<char>| #[trigger] q.subjects.contains(x) implies subject_live(
        after,
        x,
        q.queue,
    ) by {
        let k = choose|k: KeyView| #[trigger]
            before.contains_key(k) && before[k].subject == x && before[k].queue_group == Some(
                q.queue,
            );
        assert(after.contains_key(k));
    }
}

/// Every turn is kept for subjects to which the queue has subscriptions, `spare` excepted.
spec fn turns_live_but(s: ServerView, spare: Option<QueueView>) -> bool {
    forall|q: QueueView| #[trigger]
        s.queue_counters.contains_key(q) ==> queue_live(s.subscriptions, q) || spare == Some(q)
}

proof fn lemma_unregistered_turns(s: ServerView, client_id: Seq<char>, spare: Option<QueueView>)
    requires
        turns_live_but(s, spare),
    ensures
        turns_live_but(s.unregistered(client_id), spare),
{
    let u = s.unregistered(client_id);
    assert forall|q: QueueView| #[trigger] u.queue_counters.contains_key(q) implies queue_live(
        u.subscriptions,
        q,
    ) || spare == Some(q) by {
        if spare != Some(q) {
            assert(queue_live(s.subscriptions, q));
            assert(!loses_subject(s.subscriptions, u.subscriptions, q));
        }
    }
}

proof fn lemma_dropped_turns(s: ServerView, key: KeyView, spare: Option<QueueView>)
    requires
        turns_live_but(s, spare),
        s.subscriptions.contains_key(key),
    ensures
        turns_live_but(s.dropped(key), spare),
{
    let d = s.dropped(key);
    assert forall|q: QueueView| #[trigger] d.queue_counters.contains_key(q) implies queue_live(
        d.subscriptions,
        q,
    ) || spare == Some(q) by {
        if spare != Some(q) {
            assert(queue_live(s.subscriptions, q));
            assert forall|x: Seq<char>| #[trigger] q.subjects.contains(x) implies subject_live(
                d.subscriptions,
                x,
                q.queue,
            ) by {
                let k = choose|k: KeyView| #[trigger]
                    s.subscriptions.contains_key(k) && s.subscriptions[k].subject == x
                        && s.subscriptions[k].queue_group == Some(q.queue);
                if k != key {
                    assert(d.subscriptions.contains_key(k));
                }
            }
        }
    }
}

proof fn lemma_counted_turns(s: ServerView, key: KeyView, spare: Option<QueueView>)
    requires
        turns_live_but(s, spare),
    ensures
        turns_live_but(s.counted(key), spare),
{
    let c = s.counted(key);
    if s.subscriptions.contains_key(key) {
        lemma_dropped_turns(s, key, spare);
        if !s.at_limit(key) {
            assert forall|q: QueueView| #[trigger]
                c.queue_counters.contains_key(q) implies queue_live(c.subscriptions, q) || spare
                == Some(q) by {
                if spare != Some(q) {
                    lemma_live_kept(s.subscriptions, c.subscriptions, q);
                }
            }
        }
    }
}

/// The queue that a publication is at.
pub open spec fn queue_at(p: PublicationView) -> Option<QueueView> {
    if p.attempt is Some && p.groups.len() > 0 {
        Some(p.groups[0].key)
    } else {
        None
    }
}

/// `s` keeps no turn for a subject to which the queue has no subscription, but for the queue that
/// `p` is at.
pub open spec fn turns_live_during(s: ServerView, p: PublicationView) -> bool {
    forall|q: QueueView| #[trigger]
        s.queue_counters.contains_key(q) ==> queue_live(s.subscriptions, q) || queue_at(p) == Some(
            q,
        )
}

/// Deliveries keep no turn for a subject to which the queue has no subscription, but for the queue
/// that is being served; once that is done, not for it either.
pub proof fn law_deliveries_keep_turns_live(s: ServerView, p: PublicationView, sent: bool)
    requires
        p.wf(),
        turns_live_during(s, p),
    ensures
        ({
            let (t, r) = begun(s, p);
            turns_live_during(t, r)
        }),
        ({
            let (t, r) = reported(s, p, sent);
            turns_live_during(t, r)
        }),
        queue_at(p) is None && turns_live_during(s, p) ==> turns_live(s),
{
    let spare = queue_at(p);
    if p.awaiting() is Some {
        let key = p.awaiting()->0.key;
        let d = s.dispatched(key, sent);
        if sent {
            lemma_counted_turns(s, key, spare);
        } else {
            lemma_unregistered_turns(s, key.client_id, spare);
        }
        assert(turns_live_but(d, spare));
    }
}

/// To subscribe under a new identifier and then to end the subscription leaves everything as it
/// was.
pub proof fn law_unsubscribe_undoes_subscribe(
    s: ServerView,
    client_id: Seq<char>,
    sid: Seq<char>,
    subject: Seq<char>,
    queue_group: Option<Seq<char>>,
)
    requires
        turns_live(s),
        !s.subscriptions.contains_key(KeyView { client_id, sid }),
        s.subscribed(client_id, sid, subject, queue_group).1 is Ok,
    ensures
        s.subscribed(client_id, sid, subject, queue_group).0.unsubscribed(
            KeyView { client_id, sid },
        ) == (s, Ok::<(), ServerErrorView>(())),
{
    let key = KeyView { client_id, sid };
    let r = s.subscribed(client_id, sid, subject, queue_group).0;
    let u = r.unsubscribed(key).0;
    assert(r.subscriptions.remove(key) =~= s.subscriptions);
    assert(u.subscriptions == s.subscriptions);
    match queue_group {
        Some(queue) => {
            if !subject_live(s.subscriptions, subject, queue) {
                assert forall|q: QueueView| #[trigger]
                    s.queue_counters.contains_key(q) implies !(q.queue == queue
                    && q.subjects.contains(subject)) by {
                    assert(queue_live(s.subscriptions, q));
                }
                assert(u.queue_counters =~= s.queue_counters);
            }
        },
        None => {},
    }
    assert(u =~= s);
}

/// A message that no subscription is for is delivered at once.
pub proof fn law_message_for_nobody(
    subscriptions: Map<KeyView, EntryView>,
    subject: Seq<char>,
    reply_to: Option<Seq<char>>,
    payload: Seq<u8>,
    p: PublicationView,
)
    requires
        is_plan(subscriptions, subject, reply_to, payload, p),
        forall|k: KeyView| !interested(subscriptions, subject, k),
    ensures
        p.finished(),
{
    if p.direct.len() > 0 {
        assert(is_target(subscriptions, subject, None, p.direct[0]));
    }
    if p.groups.len() > 0 {
        assert(is_target(
            subscriptions,
            subject,
            Some(p.groups[0].key.queue),
            p.groups[0].members[0],
        ));
    }
}

/// A plan is well formed, and stays so as it is carried out.
pub proof fn law_publications_stay_well_formed(
    subscriptions: Map<KeyView, EntryView>,
    s: ServerView,
    p: PublicationView,
    sent: bool,
)
    ensures
        is_plan(subscriptions, p.subject, p.reply_to, p.payload, p) ==> p.wf(),
        p.wf() ==> begun(s, p).1.wf(),
        p.wf() ==> reported(s, p, sent).1.wf(),
{
    if p.wf() {
        let r = reported(s, p, sent).1;
        if p.groups.len() > 0 {
            assert(p.groups[0].members.len() > 0);
            assert forall|g: int| 0 <= g < r.groups.len() implies 0 < (
            #[trigger] r.groups[g]).members.len() <= usize::MAX by {
                if r.groups != p.groups {
                    assert(r.groups[g] == p.groups[g + 1]);
                }
            }
        }
    }
}

/// What is left to be done for a publication, at most: the subscriptions that it may still be
/// offered to.
pub open spec fn remaining(p: PublicationView) -> int {
    p.direct.len() + member_count(p.groups) - match p.attempt {
        Some(a) => a.tried as int,
        None => 0,
    }
}

/// How many members groups have together.
pub open spec fn member_count(groups: Seq<GroupView>) -> int
    decreases groups.len(),
{
    if groups.len() == 0 {
        0
    } else {
        groups[0].members.len() + member_count(groups.drop_first())
    }
}

proof fn lemma_member_count(groups: Seq<GroupView>)
    requires
        forall|g: int| 0 <= g < groups.len() ==> (#[trigger] groups[g]).members.len() > 0,
    ensures
        member_count(groups) >= groups.len(),
    decreases groups.len(),
{
    if groups.len() > 0 {
        let rest = groups.drop_first();
        assert(groups[0].members.len() > 0);
        assert forall|g: int| 0 <= g < rest.len() implies (#[trigger] rest[g]).members.len() > 0 by {
            assert(rest[g] == groups[g + 1]);
        }
        lemma_member_count(rest);
    }
}

/// A publication ends: each offer leaves less to be done, to settle the next one leaves it as it
/// is, and it is finished exactly when nothing is left.
pub proof fn law_publications_end(s: ServerView, p: PublicationView, sent: bool)
    requires
        p.wf(),
    ensures
        remaining(p) >= 0,
        remaining(p) == 0 <==> p.finished(),
        remaining(begun(s, p).1) == remaining(p),
        !p.finished() ==> begun(s, p).1.awaiting() is Some,
        p.awaiting() is Some ==> remaining(reported(s, p, sent).1) < remaining(p),
{
    lemma_member_count(p.groups);
    if p.groups.len() > 0 {
        assert(p.groups.skip(1) =~= p.groups.drop_first());
        let rest = p.groups.drop_first();
        assert forall|g: int| 0 <= g < rest.len() implies (#[trigger] rest[g]).members.len() > 0 by {
            assert(rest[g] == p.groups[g + 1]);
        }
        lemma_member_count(rest);
        assert(p.groups[0].members.len() > 0);
    }
}

/// One offer of a message: to whom, and whether the channel took it.
pub struct Offer {
    pub target: TargetView,
    pub sent: bool,
}

/// What offers lead to.
pub struct Run {
    pub state: ServerView,
    pub publication: PublicationView,
    pub offers: Seq<Offer>,
}

/// Carrying a publication on as long as `outcomes` says how offers end.
pub open spec fn run(s: ServerView, p: PublicationView, outcomes: Seq<bool>) -> Run
    decreases outcomes.len(),
{
    let (s1, p1) = begun(s, p);
    if outcomes.len() == 0 || p1.awaiting() is None {
        Run { state: s, publication: p, offers: Seq::empty() }
    } else {
        let (s2, p2) = reported(s1, p1, outcomes[0]);
        let rest = run(s2, p2, outcomes.drop_first());
        Run {
            state: rest.state,
            publication: rest.publication,
            offers: seq![Offer { target: p1.awaiting()->0, sent: outcomes[0] }] + rest.offers,
        }
    }
}

/// `n` offers that the channels take.
pub open spec fn all_sent(n: nat) -> Seq<bool> {
    Seq::new(n, |i: int| true)
}

/// The first offers fail, and that at `n` is taken.
pub open spec fn sent_at(n: nat) -> Seq<bool> {
    Seq::new(n + 1, |i: int| i == n)
}

/// Failing offers only.
pub open spec fn none_sent(n: nat) -> Seq<bool> {
    Seq::new(n, |i: int| false)
}

/// The members of a queue are tried in turn, each at most once: for any member there is one
/// number of tries after which it is up.
pub proof fn law_attempts_reach_every_member(start: usize, len: usize, index: int)
    requires
        start < len,
        0 <= index < len,
    ensures
        exists|tried: usize|
            tried < len && member_at(Attempt { start, tried }, len as int) == index,
        forall|a: usize, b: usize|
            a < len && b < len && member_at(Attempt { start, tried: a }, len as int) == index
                && member_at(Attempt { start, tried: b }, len as int) == index ==> a == b,
{
    let n = len as int;
    let d: int = if index >= start {
        index - start
    } else {
        index - start + n
    };
    lemma_wrap(start as int, d, n);
    assert(member_at(Attempt { start, tried: d as usize }, n) == index);
    assert forall|a: usize, b: usize|
        a < len && b < len && member_at(Attempt { start, tried: a }, n) == index && member_at(
            Attempt { start, tried: b },
            n,
        ) == index implies a == b by {
        lemma_wrap(start as int, a as int, n);
        lemma_wrap(start as int, b as int, n);
    }
}

/// Wrapping around once.
proof fn lemma_wrap(start: int, tried: int, n: int)
    requires
        0 <= start < n,
        0 <= tried < n,
    ensures
        (start + tried) % n == if start + tried < n {
            start + tried
        } else {
            start + tried - n
        },
{
    if start + tried < n {
        vstd::arithmetic::div_mod::lemma_small_mod((start + tried) as nat, n as nat);
    } else {
        vstd::arithmetic::div_mod::lemma_mod_sub_multiples_vanish(start + tried, n);
        vstd::arithmetic::div_mod::lemma_small_mod((start + tried - n) as nat, n as nat);
    }
}

/// `count` members in turn, from the one at `from` on.
pub open spec fn in_turn(members: Seq<TargetView>, from: int, count: nat) -> Seq<TargetView> {
    Seq::new(count, |i: int| members[(from + i) % members.len() as int])
}

/// `s` without the clients of `targets`.
pub open spec fn without_clients(s: ServerView, targets: Seq<TargetView>) -> ServerView
    decreases targets.len(),
{
    if targets.len() == 0 {
        s
    } else {
        without_clients(s.unregistered(targets[0].key.client_id), targets.drop_first())
    }
}

/// Some target is a subscription of the client `client_id`.
pub open spec fn has_client(targets: Seq<TargetView>, client_id: Seq<char>) -> bool {
    exists|i: int| 0 <= i < targets.len() && (#[trigger] targets[i]).key.client_id == client_id
}

proof fn lemma_without_clients(s: ServerView, targets: Seq<TargetView>)
    ensures
        forall|c: Seq<char>| #[trigger]
            without_clients(s, targets).clients.contains_key(c) <==> s.clients.contains_key(c)
                && !has_client(targets, c),
        forall|k: KeyView| #[trigger]
            without_clients(s, targets).subscriptions.contains_key(k)
                <==> s.subscriptions.contains_key(k) && !has_client(targets, k.client_id),
        forall|k: KeyView| #[trigger]
            without_clients(s, targets).subscriptions.contains_key(k) ==> without_clients(
                s,
                targets,
            ).subscriptions[k] == s.subscriptions[k],
    decreases targets.len(),
{
    if targets.len() > 0 {
        let rest = targets.drop_first();
        let first = targets[0].key.client_id;
        let u = s.unregistered(first);
        lemma_without_clients(u, rest);
        assert(without_clients(s, targets) == without_clients(u, rest));
        law_unregistered_client_leaves_nothing(s, first);
        assert forall|c: Seq<char>|
            #[trigger] has_client(targets, c) <==> c == first || has_client(rest, c) by {
            if has_client(targets, c) {
                let i = choose|i: int|
                    0 <= i < targets.len() && (#[trigger] targets[i]).key.client_id == c;
                if i > 0 {
                    assert(rest[i - 1].key.client_id == c);
                }
            }
            if has_client(rest, c) {
                let i = choose|i: int|
                    0 <= i < rest.len() && (#[trigger] rest[i]).key.client_id == c;
                assert(targets[i + 1].key.client_id == c);
            }
            if c == first {
                assert(targets[0].key.client_id == c);
            }
        }
    }
}

/// The members of a queue are offered a message one after the other, from the one whose turn it
/// is, until the first that takes it, which is the only one to get it; then the queue is done.
/// The clients of those that did not take it are gone with their subscriptions, the message is
/// counted for the one that did, and the turn is its successor's, or forgotten if the queue lost
/// a subject for which it is kept.
pub proof fn law_queue_serves_the_first_that_takes_it(
    s: ServerView,
    p: PublicationView,
    failures: nat,
)
    requires
        p.wf(),
        p.direct.len() == 0,
        p.groups.len() > 0,
        p.attempt is None,
        failures < p.groups[0].members.len(),
    ensures
        ({
            let members = p.groups[0].members;
            let q = p.groups[0].key;
            let n = members.len() as int;
            let start = s.turn(q) as int % n;
            let failed = in_turn(members, start, failures);
            let taker = members[(start + failures) % n];
            let r = run(s, p, sent_at(failures));
            &&& r.publication == (PublicationView { groups: p.groups.skip(1), ..p })
            &&& r.offers.len() == failures + 1
            &&& forall|i: int|
                0 <= i <= failures ==> (#[trigger] r.offers[i]) == (Offer {
                    target: members[(start + i) % n],
                    sent: i == failures,
                })
            &&& r.state == without_clients(begun(s, p).0, failed).counted(taker.key).served(
                q,
                Some((start + failures) % n),
                n,
            )
            &&& forall|c: Seq<char>| #[trigger]
                r.state.clients.contains_key(c) <==> s.clients.contains_key(c) && !has_client(
                    failed,
                    c,
                )
            &&& forall|k: KeyView|
                k != taker.key ==> (#[trigger] r.state.subscriptions.contains_key(k)
                    <==> s.subscriptions.contains_key(k) && !has_client(failed, k.client_id))
            &&& forall|k: KeyView|
                k != taker.key && #[trigger] r.state.subscriptions.contains_key(k)
                    ==> r.state.subscriptions[k] == s.subscriptions[k]
            &&& has_client(failed, taker.key.client_id) ==> !r.state.subscriptions.contains_key(
                taker.key,
            )
            &&& if queue_live(r.state.subscriptions, q) {
                r.state.queue_counters.contains_key(q) && r.state.queue_counters[q] == (start
                    + failures + 1) % n
            } else {
                !r.state.queue_counters.contains_key(q)
            }
        }),
{
    let (s1, p1) = begun(s, p);
    let q = p.groups[0].key;
    let members = p.groups[0].members;
    let n = members.len() as int;
    let start = s.turn(q) as int % n;
    vstd::arithmetic::div_mod::lemma_mod_bound(s.turn(q) as int, n);
    lemma_run_begun(s, p, sent_at(failures));
    lemma_attempts_until(s1, p1, failures);
    let r = run(s, p, sent_at(failures));
    assert(r.publication =~= (PublicationView { groups: p.groups.skip(1), ..p }));
    let failed = in_turn(members, start, failures);
    assert(in_turn(members, start + 0, failures) == failed);
    lemma_without_clients(s1, failed);
    let index = (start + failures) % n;
    vstd::arithmetic::div_mod::lemma_mod_bound(start + failures, n);
    vstd::arithmetic::div_mod::lemma_mod_bound(index + 1, n);
    vstd::arithmetic::div_mod::lemma_add_mod_noop(start + failures, 1, n);
    vstd::arithmetic::div_mod::lemma_add_mod_noop(index, 1, n);
    vstd::arithmetic::div_mod::lemma_mod_twice(start + failures, n);
    assert((index + 1) % n == (start + failures + 1) % n);
}

/// If no member of a queue takes a message, each of them was offered it once, and the queue is
/// done. The clients of the members are gone with their subscriptions, and the turn is forgotten.
pub proof fn law_queue_gives_up_after_all_members(s: ServerView, p: PublicationView)
    requires
        p.wf(),
        p.direct.len() == 0,
        p.groups.len() > 0,
        p.attempt is None,
    ensures
        ({
            let members = p.groups[0].members;
            let q = p.groups[0].key;
            let n = members.len() as int;
            let start = s.turn(q) as int % n;
            let failed = in_turn(members, start, members.len());
            let r = run(s, p, none_sent(members.len()));
            &&& r.publication == (PublicationView { groups: p.groups.skip(1), ..p })
            &&& r.offers.len() == n
            &&& forall|i: int|
                0 <= i < n ==> (#[trigger] r.offers[i]) == (Offer {
                    target: members[(start + i) % n],
                    sent: false,
                })
            &&& r.state == without_clients(begun(s, p).0, failed).served(q, None, n)
            &&& forall|c: Seq<char>| #[trigger]
                r.state.clients.contains_key(c) <==> s.clients.contains_key(c) && !has_client(
                    failed,
                    c,
                )
            &&& forall|k: KeyView| #[trigger]
                r.state.subscriptions.contains_key(k) <==> s.subscriptions.contains_key(k)
                    && !has_client(failed, k.client_id)
            &&& forall|k: KeyView| #[trigger]
                r.state.subscriptions.contains_key(k) ==> r.state.subscriptions[k]
                    == s.subscriptions[k]
            &&& !r.state.queue_counters.contains_key(q)
        }),
{
    let (s1, p1) = begun(s, p);
    let members = p.groups[0].members;
    let n = members.len();
    let start = s.turn(p.groups[0].key) as int % n as int;
    vstd::arithmetic::div_mod::lemma_mod_bound(s.turn(p.groups[0].key) as int, n as int);
    assert(n > 0);
    lemma_run_begun(s, p, none_sent(n));
    lemma_attempts_all_fail(s1, p1, n);
    let r = run(s, p, none_sent(n));
    assert(r.publication =~= (PublicationView { groups: p.groups.skip(1), ..p }));
    assert(in_turn(members, start + 0, n) == in_turn(members, start, n));
    lemma_without_clients(s1, in_turn(members, start, n));
}

/// To settle the next offer beforehand makes no difference.
proof fn lemma_run_begun(s: ServerView, p: PublicationView, outcomes: Seq<bool>)
    requires
        p.wf(),
        !p.finished(),
        outcomes.len() > 0,
    ensures
        run(s, p, outcomes) == run(begun(s, p).0, begun(s, p).1, outcomes),
{
    let (s1, p1) = begun(s, p);
    assert(begun(s1, p1) == (s1, p1));
}

proof fn lemma_in_turn(members: Seq<TargetView>, from: int, count: nat)
    requires
        count > 0,
    ensures
        in_turn(members, from, count)[0] == members[from % members.len() as int],
        in_turn(members, from, count).drop_first() == in_turn(
            members,
            from + 1,
            (count - 1) as nat,
        ),
{
    assert(in_turn(members, from, count).drop_first() =~= in_turn(
        members,
        from + 1,
        (count - 1) as nat,
    )) by {
        assert forall|i: int| 0 <= i < count - 1 implies in_turn(
            members,
            from,
            count,
        ).drop_first()[i] == #[trigger] in_turn(members, from + 1, (count - 1) as nat)[i] by {
            assert(from + (i + 1) == from + 1 + i);
        }
    }
}

proof fn lemma_attempts_until(s: ServerView, p: PublicationView, failures: nat)
    requires
        p.wf(),
        p.attempt is Some,
        p.attempt->0.tried + failures < p.groups[0].members.len(),
    ensures
        ({
            let members = p.groups[0].members;
            let n = members.len() as int;
            let a = p.attempt->0;
            let r = run(s, p, sent_at(failures));
            &&& r.publication == (PublicationView {
                groups: p.groups.skip(1),
                attempt: None,
                ..p
            })
            &&& r.offers.len() == failures + 1
            &&& forall|i: int|
                0 <= i <= failures ==> (#[trigger] r.offers[i]) == (Offer {
                    target: members[(a.start + a.tried + i) % n],
                    sent: i == failures,
                })
            &&& r.state == without_clients(
                s,
                in_turn(members, a.start + a.tried, failures),
            ).counted(members[(a.start + a.tried + failures) % n].key).served(
                p.groups[0].key,
                Some((a.start + a.tried + failures) % n),
                n,
            )
        }),
    decreases failures,
{
    let outcomes = sent_at(failures);
    let a = p.attempt->0;
    let members = p.groups[0].members;
    let n = members.len() as int;
    assert(begun(s, p) == (s, p));
    let (s2, p2) = reported(s, p, outcomes[0]);
    let r = run(s, p, outcomes);
    if failures == 0 {
        let rest = run(s2, p2, outcomes.drop_first());
        assert(rest.offers.len() == 0);
        assert(r.offers =~= seq![Offer { target: p.awaiting()->0, sent: true }]);
    } else {
        let f = (failures - 1) as nat;
        lemma_in_turn(members, a.start + a.tried, failures);
        assert(outcomes.drop_first() =~= sent_at(f));
        lemma_attempts_until(s2, p2, f);
        let rest = run(s2, p2, sent_at(f));
        assert forall|i: int| 0 <= i <= failures implies (#[trigger] r.offers[i]) == (Offer {
            target: members[(a.start + a.tried + i) % n],
            sent: i == failures,
        }) by {
            if i > 0 {
                assert(r.offers[i] == rest.offers[i - 1]);
                assert(p2.attempt->0.tried + (i - 1) == a.tried + i);
            }
        }
    }
}

proof fn lemma_attempts_all_fail(s: ServerView, p: PublicationView, left: nat)
    requires
        p.wf(),
        p.attempt is Some,
        p.attempt->0.tried + left == p.groups[0].members.len(),
    ensures
        ({
            let members = p.groups[0].members;
            let n = members.len() as int;
            let a = p.attempt->0;
            let r = run(s, p, none_sent(left));
            &&& r.publication == (PublicationView {
                groups: p.groups.skip(1),
                attempt: None,
                ..p
            })
            &&& r.offers.len() == left
            &&& forall|i: int|
                0 <= i < left ==> (#[trigger] r.offers[i]) == (Offer {
                    target: members[(a.start + a.tried + i) % n],
                    sent: false,
                })
            &&& r.state == without_clients(s, in_turn(members, a.start + a.tried, left)).served(
                p.groups[0].key,
                None,
                n,
            )
        }),
    decreases left,
{
    let outcomes = none_sent(left);
    let a = p.attempt->0;
    let members = p.groups[0].members;
    let n = members.len() as int;
    assert(begun(s, p) == (s, p));
    let (s2, p2) = reported(s, p, outcomes[0]);
    let r = run(s, p, outcomes);
    let l = (left - 1) as nat;
    lemma_in_turn(members, a.start + a.tried, left);
    assert(outcomes.drop_first() =~= none_sent(l));
    let rest = run(s2, p2, none_sent(l));
    if l == 0 {
        let gone = s.unregistered(p.awaiting()->0.key.client_id);
        assert(without_clients(gone, in_turn(members, a.start + a.tried + 1, 0)) == gone);
        assert(rest.offers.len() == 0);
        assert(r.offers =~= seq![Offer { target: p.awaiting()->0, sent: false }]);
    } else {
        lemma_attempts_all_fail(s2, p2, l);
        assert forall|i: int| 0 <= i < left implies (#[trigger] r.offers[i]) == (Offer {
            target: members[(a.start + a.tried + i) % n],
            sent: false,
        }) by {
            if i > 0 {
                assert(r.offers[i] == rest.offers[i - 1]);
                assert(p2.attempt->0.tried + (i - 1) == a.tried + i);
            }
        }
    }
}

/// Once a member of a queue got a message, the turn is its successor's, as long as the queue has
/// subscriptions to the subjects for which it is kept.
pub proof fn law_turn_passes_to_the_next(s: ServerView, p: PublicationView)
    requires
        p.wf(),
        p.attempt is Some,
    ensures
        ({
            let q = p.groups[0].key;
            let n = p.groups[0].members.len() as int;
            let t = reported(s, p, true).0;
            queue_live(t.subscriptions, q) ==> t.turn(q) == (member_at(p.attempt->0, n) + 1) % n
        }),
{
    let n = p.groups[0].members.len() as int;
    vstd::arithmetic::div_mod::lemma_mod_bound(member_at(p.attempt->0, n) + 1, n);
}

/// What successful offers do to subscriptions: they count, and those with a limit may end.
pub open spec fn only_counts(
    before: Map<KeyView, EntryView>,
    after: Map<KeyView, EntryView>,
) -> bool {
    &&& forall|k: KeyView| #[trigger]
        after.contains_key(k) ==> before.contains_key(k) && after[k] == (EntryView {
            delivered: after[k].delivered,
            ..before[k]
        })
    &&& forall|k: KeyView| #[trigger]
        before.contains_key(k) && before[k].max_msgs is None ==> after.contains_key(k)
}

proof fn lemma_counted_only_counts(s: ServerView, key: KeyView)
    ensures
        only_counts(s.subscriptions, s.counted(key).subscriptions),
{
}

proof fn lemma_only_counts_live(
    before: Map<KeyView, EntryView>,
    after: Map<KeyView, EntryView>,
    q: QueueView,
)
    requires
        only_counts(before, after),
        queue_live(after, q),
    ensures
        queue_live(before, q),
{
    assert forall|x: Seq<char>| #[trigger] q.subjects.contains(x) implies subject_live(
        before,
        x,
        q.queue,
    ) by {
        let k = choose|k: KeyView| #[trigger]
            after.contains_key(k) && after[k].subject == x && after[k].queue_group == Some(q.queue);
        assert(before.contains_key(k));
    }
}

/// Some group sees its queue as `q` says.
pub open spec fn has_group(groups: Seq<GroupView>, q: QueueView) -> bool {
    exists|g: int| 0 <= g < groups.len() && (#[trigger] groups[g]).key == q
}

/// Some group is that of the queue `queue`.
pub open spec fn has_queue(groups: Seq<GroupView>, queue: Seq<char>) -> bool {
    exists|g: int| 0 <= g < groups.len() && (#[trigger] groups[g]).key.queue == queue
}

/// The targets take part in the queues under which they are listed, and each queue is listed
/// once.
spec fn faithful(s: ServerView, p: PublicationView) -> bool {
    &&& forall|i: int| #![trigger p.direct[i]]
        0 <= i < p.direct.len() && s.subscriptions.contains_key(p.direct[i].key)
            ==> s.subscriptions[p.direct[i].key].queue_group is None
    &&& forall|g: int, i: int| #![trigger p.groups[g].members[i]]
        0 <= g < p.groups.len() && 0 <= i < p.groups[g].members.len()
            && s.subscriptions.contains_key(p.groups[g].members[i].key)
            ==> s.subscriptions[p.groups[g].members[i].key].queue_group == Some(p.groups[g].key.queue)
    &&& forall|g: int, h: int|
        0 <= g < h < p.groups.len() ==> (#[trigger] p.groups[g]).key.queue != (
        #[trigger] p.groups[h]).key.queue
}

proof fn lemma_faithful_after(s: ServerView, t: ServerView, p: PublicationView)
    requires
        faithful(s, p),
        only_counts(s.subscriptions, t.subscriptions),
    ensures
        faithful(t, p),
{
    assert forall|g: int, i: int| #![trigger p.groups[g].members[i]]
        0 <= g < p.groups.len() && 0 <= i < p.groups[g].members.len()
            && t.subscriptions.contains_key(
            p.groups[g].members[i].key,
        ) implies t.subscriptions[p.groups[g].members[i].key].queue_group == Some(
        p.groups[g].key.queue,
    ) by {
        let k = p.groups[g].members[i].key;
        assert(s.subscriptions.contains_key(k));
    }
    assert forall|i: int| #![trigger p.direct[i]]
        0 <= i < p.direct.len() && t.subscriptions.contains_key(
            p.direct[i].key,
        ) implies t.subscriptions[p.direct[i].key].queue_group is None by {
        let k = p.direct[i].key;
        assert(s.subscriptions.contains_key(k));
    }
}

proof fn lemma_fewer_groups(groups: Seq<GroupView>, q: QueueView)
    requires
        groups.len() > 0,
    ensures
        !has_queue(groups, q.queue) ==> !has_queue(groups.skip(1), q.queue),
        !has_group(groups, q) ==> !has_group(groups.skip(1), q),
{
    let fewer = groups.skip(1);
    if has_queue(fewer, q.queue) {
        let g = choose|g: int| 0 <= g < fewer.len() && (#[trigger] fewer[g]).key.queue == q.queue;
        assert(groups[g + 1].key.queue == q.queue);
    }
    if has_group(fewer, q) {
        let g = choose|g: int| 0 <= g < fewer.len() && (#[trigger] fewer[g]).key == q;
        assert(groups[g + 1].key == q);
    }
}

/// What a successful run over the groups of `p` gives.
spec fn groups_served(s: ServerView, p: PublicationView, r: Run) -> bool {
    &&& r.publication == (PublicationView { groups: Seq::empty(), ..p })
    &&& only_counts(s.subscriptions, r.state.subscriptions)
    &&& r.offers.len() == p.groups.len()
    &&& forall|g: int| #![trigger p.groups[g]]
        0 <= g < p.groups.len() ==> {
            let n = p.groups[g].members.len() as int;
            let turn = s.turn(p.groups[g].key) as int % n;
            &&& r.offers[g] == (Offer { target: p.groups[g].members[turn], sent: true })
            &&& queue_live(r.state.subscriptions, p.groups[g].key) ==> r.state.turn(
                p.groups[g].key,
            ) == (turn + 1) % n
        }
    &&& forall|q: QueueView|
        !has_queue(p.groups, q.queue) ==> #[trigger] r.state.turn(q) == s.turn(q)
    &&& forall|q: QueueView|
        !has_group(p.groups, q) && queue_live(r.state.subscriptions, q) ==> #[trigger] r.state.turn(
            q,
        ) == s.turn(q)
}

#[verifier::rlimit(40)]
proof fn lemma_groups_served(s: ServerView, p: PublicationView)
    requires
        p.wf(),
        p.direct.len() == 0,
        p.attempt is None,
        faithful(s, p),
    ensures
        groups_served(s, p, run(s, p, all_sent(p.groups.len()))),
    decreases p.groups.len(),
{
    let count = p.groups.len();
    let outcomes = all_sent(count);
    let r = run(s, p, outcomes);
    if count == 0 {
        assert(p.groups =~= Seq::<GroupView>::empty());
    } else {
        let (s1, p1) = begun(s, p);
        let q0 = p.groups[0].key;
        let members = p.groups[0].members;
        let n = members.len() as int;
        let turn = s.turn(q0) as int % n;
        vstd::arithmetic::div_mod::lemma_mod_bound(s.turn(q0) as int, n);
        vstd::arithmetic::div_mod::lemma_mod_bound(turn + 1, n);
        vstd::arithmetic::div_mod::lemma_small_mod(turn as nat, n as nat);
        assert(member_at(p1.attempt->0, n) == turn);
        assert(p1.awaiting() == Some(members[turn]));
        let key = members[turn].key;
        let t = s1.counted(key);
        lemma_counted_only_counts(s1, key);
        let (s2, p2) = reported(s1, p1, true);
        assert(s2 == t.served(q0, Some(turn), n));
        assert(s2.subscriptions == t.subscriptions);
        assert(p2 =~= (PublicationView { groups: p.groups.skip(1), ..p }));
        assert(outcomes.drop_first() =~= all_sent((count - 1) as nat));
        assert(outcomes[0]);
        if s.subscriptions.contains_key(key) {
            assert(p.groups[0].members[turn].key == key);
            assert(s.subscriptions[key].queue_group == Some(q0.queue));
        }
        assert forall|q: QueueView|
            q != q0 && (q.queue != q0.queue || queue_live(s2.subscriptions, q)) implies (
        #[trigger] s2.turn(q)) == s.turn(q) by {
            assert(s1.turn(q) == s.turn(q));
            assert(t.turn(q) == s1.turn(q));
        }
        lemma_faithful_after(s, s2, p);
        assert forall|g: int| 0 <= g < p2.groups.len() implies 0 < (
        #[trigger] p2.groups[g]).members.len() <= usize::MAX by {
            assert(p2.groups[g] == p.groups[g + 1]);
        }
        assert(faithful(s2, p2)) by {
            assert forall|g: int, i: int| #![trigger p2.groups[g].members[i]]
                0 <= g < p2.groups.len() && 0 <= i < p2.groups[g].members.len()
                    && s2.subscriptions.contains_key(
                    p2.groups[g].members[i].key,
                ) implies s2.subscriptions[p2.groups[g].members[i].key].queue_group == Some(
                p2.groups[g].key.queue,
            ) by {
                assert(p2.groups[g] == p.groups[g + 1]);
                assert(p.groups[g + 1].members[i] == p2.groups[g].members[i]);
            }
            assert forall|g: int, h: int| 0 <= g < h < p2.groups.len() implies (
            #[trigger] p2.groups[g]).key.queue != (#[trigger] p2.groups[h]).key.queue by {
                assert(p.groups[g + 1].key.queue != p.groups[h + 1].key.queue);
            }
        }
        lemma_groups_served(s2, p2);
        let rest = run(s2, p2, all_sent((count - 1) as nat));
        assert(r.offers =~= seq![Offer { target: members[turn], sent: true }] + rest.offers);
        assert(!has_queue(p2.groups, q0.queue)) by {
            if has_queue(p2.groups, q0.queue) {
                let g = choose|g: int|
                    0 <= g < p2.groups.len() && (#[trigger] p2.groups[g]).key.queue == q0.queue;
                assert(p.groups[0].key.queue != p.groups[g + 1].key.queue);
            }
        }
        assert(rest.state.turn(q0) == s2.turn(q0));
        assert forall|g: int| #![trigger p.groups[g]] 0 <= g < p.groups.len() implies {
            let m = p.groups[g].members.len() as int;
            let w = s.turn(p.groups[g].key) as int % m;
            &&& r.offers[g] == (Offer { target: p.groups[g].members[w], sent: true })
            &&& queue_live(r.state.subscriptions, p.groups[g].key) ==> r.state.turn(
                p.groups[g].key,
            ) == (w + 1) % m
        } by {
            if g == 0 {
                if queue_live(r.state.subscriptions, q0) {
                    lemma_only_counts_live(s2.subscriptions, r.state.subscriptions, q0);
                    assert(s2.turn(q0) == (turn + 1) % n);
                }
            } else {
                assert(p2.groups[g - 1] == p.groups[g]);
                assert(p.groups[0].key.queue != p.groups[g].key.queue);
                assert(r.offers[g] == rest.offers[g - 1]);
                assert(s2.turn(p.groups[g].key) == s.turn(p.groups[g].key));
            }
        }
        assert forall|q: QueueView| !has_queue(p.groups, q.queue) implies #[trigger] r.state.turn(q)
            == s.turn(q) by {
            assert(p.groups[0].key.queue != q.queue);
            lemma_fewer_groups(p.groups, q);
            assert(rest.state.turn(q) == s2.turn(q));
        }
        assert forall|q: QueueView|
            !has_group(p.groups, q) && queue_live(r.state.subscriptions, q) implies (
        #[trigger] r.state.turn(q)) == s.turn(q) by {
            assert(p.groups[0].key != q);
            lemma_fewer_groups(p.groups, q);
            lemma_only_counts_live(s2.subscriptions, r.state.subscriptions, q);
            assert(s2.turn(q) == s.turn(q));
            assert(rest.state.turn(q) == s2.turn(q));
        }
        assert(only_counts(s.subscriptions, r.state.subscriptions)) by {
            assert(only_counts(s.subscriptions, s2.subscriptions));
            assert(only_counts(s2.subscriptions, r.state.subscriptions));
        }
    }
}

/// The run `r` served all that `p` is for: each subscription outside queues once, in each queue
/// the member whose turn it was; after which the turn is the next member's, if the queue still
/// has subscriptions to the subjects for which it is kept. No other turn has changed, unless its
/// queue lost a subject for which it is kept.
pub open spec fn all_served(s: ServerView, p: PublicationView, r: Run) -> bool {
    let d = p.direct.len() as int;
    &&& r.publication.finished()
    &&& only_counts(s.subscriptions, r.state.subscriptions)
    &&& r.offers.len() == p.direct.len() + p.groups.len()
    &&& forall|i: int|
        0 <= i < d ==> #[trigger] r.offers[i] == (Offer { target: p.direct[i], sent: true })
    &&& forall|g: int| #![trigger p.groups[g]]
        0 <= g < p.groups.len() ==> {
            let n = p.groups[g].members.len() as int;
            let turn = s.turn(p.groups[g].key) as int % n;
            &&& r.offers[d + g] == (Offer { target: p.groups[g].members[turn], sent: true })
            &&& queue_live(r.state.subscriptions, p.groups[g].key) ==> r.state.turn(
                p.groups[g].key,
            ) == (turn + 1) % n
        }
    &&& forall|q: QueueView|
        !has_queue(p.groups, q.queue) ==> #[trigger] r.state.turn(q) == s.turn(q)
    &&& forall|q: QueueView|
        !has_group(p.groups, q) && queue_live(r.state.subscriptions, q) ==> #[trigger] r.state.turn(
            q,
        ) == s.turn(q)
}

proof fn lemma_all_served(s: ServerView, p: PublicationView)
    requires
        p.wf(),
        p.attempt is None,
        faithful(s, p),
    ensures
        all_served(s, p, run(s, p, all_sent(p.direct.len() + p.groups.len()))),
    decreases p.direct.len(),
{
    let count = p.direct.len() + p.groups.len();
    let outcomes = all_sent(count);
    let r = run(s, p, outcomes);
    if p.direct.len() == 0 {
        lemma_groups_served(s, p);
    } else {
        assert(begun(s, p) == (s, p));
        let key = p.direct[0].key;
        let (s2, p2) = reported(s, p, true);
        assert(outcomes[0]);
        assert(s2 == s.counted(key));
        lemma_counted_only_counts(s, key);
        assert forall|q: QueueView| #[trigger] s2.turn(q) == s.turn(q) by {}
        lemma_faithful_after(s, s2, p);
        assert(faithful(s2, p2)) by {
            assert forall|i: int| #![trigger p2.direct[i]]
                0 <= i < p2.direct.len() && s2.subscriptions.contains_key(
                    p2.direct[i].key,
                ) implies s2.subscriptions[p2.direct[i].key].queue_group is None by {
                assert(p2.direct[i] == p.direct[i + 1]);
            }
        }
        assert(outcomes.drop_first() =~= all_sent((count - 1) as nat));
        lemma_all_served(s2, p2);
        let rest = run(s2, p2, all_sent((count - 1) as nat));
        assert(r.offers =~= seq![Offer { target: p.direct[0], sent: true }] + rest.offers);
        let d = p.direct.len() as int;
        assert forall|i: int| 0 <= i < d implies #[trigger] r.offers[i] == (Offer {
            target: p.direct[i],
            sent: true,
        }) by {
            if i > 0 {
                assert(r.offers[i] == rest.offers[i - 1]);
                assert(p2.direct[i - 1] == p.direct[i]);
            }
        }
        assert forall|g: int| #![trigger p.groups[g]] 0 <= g < p.groups.len() implies {
            let n = p.groups[g].members.len() as int;
            let turn = s.turn(p.groups[g].key) as int % n;
            &&& r.offers[d + g] == (Offer { target: p.groups[g].members[turn], sent: true })
            &&& queue_live(r.state.subscriptions, p.groups[g].key) ==> r.state.turn(
                p.groups[g].key,
            ) == (turn + 1) % n
        } by {
            assert(p2.groups[g] == p.groups[g]);
            assert(r.offers[d + g] == rest.offers[d - 1 + g]);
            assert(s2.turn(p.groups[g].key) == s.turn(p.groups[g].key));
        }
        assert forall|q: QueueView| !has_queue(p.groups, q.queue) implies #[trigger] r.state.turn(q)
            == s.turn(q) by {
            assert(rest.state.turn(q) == s2.turn(q));
        }
        assert forall|q: QueueView|
            !has_group(p.groups, q) && queue_live(r.state.subscriptions, q) implies (
        #[trigger] r.state.turn(q)) == s.turn(q) by {
            assert(rest.state.turn(q) == s2.turn(q));
        }
    }
}

proof fn lemma_plan_faithful(s: ServerView, p: PublicationView)
    requires
        is_plan(s.subscriptions, p.subject, p.reply_to, p.payload, p),
    ensures
        p.wf(),
        p.attempt is None,
        faithful(s, p),
{
    assert forall|i: int| #![trigger p.direct[i]]
        0 <= i < p.direct.len() && s.subscriptions.contains_key(
            p.direct[i].key,
        ) implies s.subscriptions[p.direct[i].key].queue_group is None by {
        assert(is_target(s.subscriptions, p.subject, None, p.direct[i]));
    }
    assert forall|g: int, i: int| #![trigger p.groups[g].members[i]]
        0 <= g < p.groups.len() && 0 <= i < p.groups[g].members.len()
            && s.subscriptions.contains_key(
            p.groups[g].members[i].key,
        ) implies s.subscriptions[p.groups[g].members[i].key].queue_group == Some(
        p.groups[g].key.queue,
    ) by {
        assert(is_target(
            s.subscriptions,
            p.subject,
            Some(p.groups[g].key.queue),
            p.groups[g].members[i],
        ));
    }
}

/// A published message of which every offer is taken reaches each interested subscription
/// outside queues once, and in each interested queue one member, the one whose turn it is.
pub proof fn law_successful_publication(s: ServerView, p: PublicationView)
    requires
        is_plan(s.subscriptions, p.subject, p.reply_to, p.payload, p),
    ensures
        all_served(s, p, run(s, p, all_sent(p.direct.len() + p.groups.len()))),
{
    lemma_plan_faithful(s, p);
    lemma_all_served(s, p);
}

/// `keys` are the subscriptions of the queue `q` that a message on `subject` is for, in ascending
/// order.
pub open spec fn is_roster(
    subscriptions: Map<KeyView, EntryView>,
    subject: Seq<char>,
    q: Seq<char>,
    keys: Seq<KeyView>,
) -> bool {
    &&& forall|i: int, j: int|
        0 <= i < j < keys.len() ==> (#[trigger] keys[i]).before(#[trigger] keys[j])
    &&& forall|k: KeyView|
        #[trigger]
        keys.contains(k) <==> interested(subscriptions, subject, k) && subscriptions[k].queue_group
            == Some(q)
}

/// The queue `q` as a message sees it that is for the subscriptions `keys`.
pub open spec fn queue_for(
    subscriptions: Map<KeyView, EntryView>,
    q: Seq<char>,
    keys: Seq<KeyView>,
) -> QueueView {
    QueueView {
        queue: q,
        subjects: Set::new(
            |x: Seq<char>|
                exists|i: int|
                    0 <= i < keys.len() && subscriptions[#[trigger] keys[i]].subject == x,
        ),
    }
}

proof fn lemma_roster_unique(a: Seq<KeyView>, b: Seq<KeyView>)
    requires
        forall|i: int, j: int| 0 <= i < j < a.len() ==> (#[trigger] a[i]).before(#[trigger] a[j]),
        forall|i: int, j: int| 0 <= i < j < b.len() ==> (#[trigger] b[i]).before(#[trigger] b[j]),
        forall|k: KeyView| #[trigger] a.contains(k) <==> b.contains(k),
    ensures
        a == b,
    decreases a.len(),
{
    if a.len() == 0 {
        if b.len() > 0 {
            assert(b.contains(b[0]));
            assert(a.contains(b[0]));
        }
        assert(a =~= b);
    } else {
        assert(a.contains(a[0]));
        let i = choose|i: int| 0 <= i < b.len() && b[i] == a[0];
        assert(b.contains(b[0]));
        assert(a.contains(b[0]));
        let j = choose|j: int| 0 <= j < a.len() && a[j] == b[0];
        law_key_order_total(a[0], b[0]);
        if i > 0 {
            assert(b[0].before(b[i]));
            if j > 0 {
                assert(a[0].before(a[j]));
            }
        }
        assert(a[0] == b[0]);
        let x = a.drop_first();
        let y = b.drop_first();
        assert forall|k: KeyView| #[trigger] x.contains(k) implies y.contains(k) by {
            let m = choose|m: int| 0 <= m < x.len() && x[m] == k;
            assert(a[m + 1] == k);
            assert(a.contains(k));
            assert(a[0].before(a[m + 1]));
            law_key_order_total(a[0], a[0]);
            let o = choose|o: int| 0 <= o < b.len() && b[o] == k;
            assert(o > 0);
            assert(y[o - 1] == k);
        }
        assert forall|k: KeyView| #[trigger] y.contains(k) implies x.contains(k) by {
            let m = choose|m: int| 0 <= m < y.len() && y[m] == k;
            assert(b[m + 1] == k);
            assert(b.contains(k));
            assert(a.contains(k));
            assert(b[0].before(b[m + 1]));
            law_key_order_total(b[0], b[0]);
            let o = choose|o: int| 0 <= o < a.len() && a[o] == k;
            assert(o > 0);
            assert(x[o - 1] == k);
        }
        assert forall|m: int, o: int| 0 <= m < o < x.len() implies (#[trigger] x[m]).before(
            #[trigger] x[o],
        ) by {
            assert(a[m + 1].before(a[o + 1]));
        }
        assert forall|m: int, o: int| 0 <= m < o < y.len() implies (#[trigger] y[m]).before(
            #[trigger] y[o],
        ) by {
            assert(b[m + 1].before(b[o + 1]));
        }
        lemma_roster_unique(x, y);
        assert(a =~= seq![a[0]] + x);
        assert(b =~= seq![b[0]] + y);
    }
}

/// In the plan of a message each queue has one group, with all its interested subscriptions.
pub proof fn law_queue_members_are_the_interested_ones(
    s: ServerView,
    p: PublicationView,
    q: Seq<char>,
    keys: Seq<KeyView>,
) -> (g: int)
    requires
        is_plan(s.subscriptions, p.subject, p.reply_to, p.payload, p),
        is_roster(s.subscriptions, p.subject, q, keys),
        keys.len() > 0,
    ensures
        0 <= g < p.groups.len(),
        p.groups[g].key == queue_for(s.subscriptions, q, keys),
        forall|h: int|
            0 <= h < p.groups.len() && (#[trigger] p.groups[h]).key.queue == q ==> h == g,
        p.groups[g].members.len() == keys.len(),
        forall|i: int| 0 <= i < keys.len() ==> (#[trigger] p.groups[g].members[i]).key == keys[i],
{
    let subs = s.subscriptions;
    assert(keys.contains(keys[0]));
    assert(interested(subs, p.subject, keys[0]));
    assert(groups_list(p.groups, q, keys[0]));
    let g = choose|g: int|
        0 <= g < p.groups.len() && (#[trigger] p.groups[g]).key.queue == q && lists(
            p.groups[g].members,
            keys[0],
        );
    let members = p.groups[g].members;
    let mine = Seq::new(members.len(), |i: int| members[i].key);
    assert forall|k: KeyView| #[trigger] mine.contains(k) implies keys.contains(k) by {
        let i = choose|i: int| 0 <= i < mine.len() && mine[i] == k;
        assert(is_target(subs, p.subject, Some(p.groups[g].key.queue), p.groups[g].members[i]));
    }
    assert forall|k: KeyView| #[trigger] keys.contains(k) implies mine.contains(k) by {
        assert(interested(subs, p.subject, k));
        assert(groups_list(p.groups, q, k));
        let h = choose|h: int|
            0 <= h < p.groups.len() && (#[trigger] p.groups[h]).key.queue == q && lists(
                p.groups[h].members,
                k,
            );
        assert(h == g) by {
            if h < g {
                assert(p.groups[h].key.queue != p.groups[g].key.queue);
            } else if g < h {
                assert(p.groups[g].key.queue != p.groups[h].key.queue);
            }
        }
        let i = choose|i: int| 0 <= i < members.len() && (#[trigger] members[i]).key == k;
        assert(mine[i] == k);
    }
    assert forall|i: int, j: int| 0 <= i < j < mine.len() implies (#[trigger] mine[i]).before(
        #[trigger] mine[j],
    ) by {
        assert(members[i].key.before(members[j].key));
    }
    lemma_roster_unique(mine, keys);
    assert forall|i: int| 0 <= i < keys.len() implies (#[trigger] p.groups[g].members[i]).key
        == keys[i] by {
        assert(mine[i] == keys[i]);
    }
    assert forall|h: int| 0 <= h < p.groups.len() && (#[trigger] p.groups[h]).key.queue == q implies h
        == g by {
        if h < g {
            assert(p.groups[h].key.queue != p.groups[g].key.queue);
        } else if g < h {
            assert(p.groups[g].key.queue != p.groups[h].key.queue);
        }
    }
    assert(p.groups[g].key.subjects == subjects_of(subs, members));
    assert forall|x: Seq<char>| subjects_of(subs, members).contains(x) <==> queue_for(
        subs,
        q,
        keys,
    ).subjects.contains(x) by {
        if subjects_of(subs, members).contains(x) {
            let i = choose|i: int|
                0 <= i < members.len() && subs[(#[trigger] members[i]).key].subject == x;
            assert(members[i].key == keys[i]);
        }
        if queue_for(subs, q, keys).subjects.contains(x) {
            let i = choose|i: int| 0 <= i < keys.len() && subs[#[trigger] keys[i]].subject == x;
            assert(p.groups[g].members[i].key == keys[i]);
            assert(subs[members[i].key].subject == x);
        }
    }
    assert(p.groups[g].key =~= queue_for(subs, q, keys));
    g
}

/// The state after the first `n` of the messages `plans` were published, one after the other,
/// and every offer was taken.
pub open spec fn after_messages(s: ServerView, plans: Seq<PublicationView>, n: nat) -> ServerView
    decreases n,
{
    if n == 0 {
        s
    } else {
        let t = after_messages(s, plans, (n - 1) as nat);
        let p = plans[n - 1];
        run(t, p, all_sent(p.direct.len() + p.groups.len())).state
    }
}

/// Messages that are published one after the other: each is planned for the state that the ones
/// before it left.
pub open spec fn are_published(s: ServerView, plans: Seq<PublicationView>) -> bool {
    forall|i: int| #![trigger plans[i]]
        0 <= i < plans.len() ==> is_plan(
            after_messages(s, plans, i as nat).subscriptions,
            plans[i].subject,
            plans[i].reply_to,
            plans[i].payload,
            plans[i],
        )
}

/// Offers of the message `p`, published in the state `s`, reach the subscription `key`.
pub open spec fn reaches(s: ServerView, p: PublicationView, key: KeyView) -> bool {
    let offers = run(s, p, all_sent(p.direct.len() + p.groups.len())).offers;
    exists|i: int|
        0 <= i < offers.len() && (#[trigger] offers[i]).sent && offers[i].target.key == key
}

/// A client that subscribes outside queues gets, of the messages published after that, those that
/// its subject covers, and no others.
pub proof fn law_subscriber_gets_what_it_covers(
    s: ServerView,
    client_id: Seq<char>,
    sid: Seq<char>,
    pattern: Seq<char>,
    p: PublicationView,
)
    requires
        s.subscribed(client_id, sid, pattern, None).1 is Ok,
        is_plan(
            s.subscribed(client_id, sid, pattern, None).0.subscriptions,
            p.subject,
            p.reply_to,
            p.payload,
            p,
        ),
    ensures
        reaches(
            s.subscribed(client_id, sid, pattern, None).0,
            p,
            KeyView { client_id, sid },
        ) <==> subject_matches(pattern, p.subject),
{
    let t = s.subscribed(client_id, sid, pattern, None).0;
    let key = KeyView { client_id, sid };
    let d = p.direct.len() as int;
    let offers = run(t, p, all_sent(p.direct.len() + p.groups.len())).offers;
    law_successful_publication(t, p);
    if subject_matches(pattern, p.subject) {
        assert(interested(t.subscriptions, p.subject, key));
        let i = choose|i: int| 0 <= i < p.direct.len() && (#[trigger] p.direct[i]).key == key;
        assert(offers[i].target == p.direct[i]);
    }
    if reaches(t, p, key) {
        let i = choose|i: int|
            0 <= i < offers.len() && (#[trigger] offers[i]).sent && offers[i].target.key == key;
        if i < d {
            assert(is_target(t.subscriptions, p.subject, None, p.direct[i]));
        } else {
            let group = p.groups[i - d];
            let turn = t.turn(group.key) as int % group.members.len() as int;
            assert(offers[d + (i - d)].target == group.members[turn]);
            assert(is_target(t.subscriptions, p.subject, Some(group.key.queue), group.members[turn]));
        }
    }
}

/// Each offer of a successful publication is to another subscription.
pub proof fn law_messages_arrive_once(s: ServerView, p: PublicationView)
    requires
        is_plan(s.subscriptions, p.subject, p.reply_to, p.payload, p),
    ensures
        ({
            let offers = run(s, p, all_sent(p.direct.len() + p.groups.len())).offers;
            forall|i: int, j: int|
                0 <= i < j < offers.len() ==> (#[trigger] offers[i]).target.key != (
                #[trigger] offers[j]).target.key
        }),
{
    let d = p.direct.len() as int;
    let offers = run(s, p, all_sent(p.direct.len() + p.groups.len())).offers;
    law_successful_publication(s, p);
    assert forall|i: int, j: int| 0 <= i < j < offers.len() implies (
    #[trigger] offers[i]).target.key != (#[trigger] offers[j]).target.key by {
        lemma_offer_at(s, p, i);
        lemma_offer_at(s, p, j);
        if j < d {
            assert(p.direct[i].key != p.direct[j].key);
        } else if i >= d {
            assert(p.groups[i - d].key.queue != p.groups[j - d].key.queue);
        }
    }
}

/// The subscription `key` of a server, if it is there.
pub open spec fn entry_at(s: ServerView, key: KeyView) -> Option<EntryView> {
    if s.subscriptions.contains_key(key) {
        Some(s.subscriptions[key])
    } else {
        None
    }
}

/// What becomes of a subscription with one more message.
spec fn counted_entry(entry: Option<EntryView>) -> Option<EntryView> {
    match entry {
        Some(e) => {
            let delivered = one_more(e.delivered);
            if e.max_msgs is Some && delivered >= e.max_msgs->0 {
                None
            } else {
                Some(EntryView { delivered, ..e })
            }
        },
        None => None,
    }
}

/// Some offer is to the subscription `key`.
spec fn offered(offers: Seq<Offer>, key: KeyView) -> bool {
    exists|i: int| 0 <= i < offers.len() && (#[trigger] offers[i]).target.key == key
}

/// A run of taken offers, no two to one subscription, counts once for those that it reaches and
/// leaves the others alone.
proof fn lemma_run_entry(s: ServerView, p: PublicationView, n: nat, key: KeyView)
    requires
        ({
            let offers = run(s, p, all_sent(n)).offers;
            forall|i: int, j: int|
                0 <= i < j < offers.len() ==> (#[trigger] offers[i]).target.key != (
                #[trigger] offers[j]).target.key
        }),
    ensures
        entry_at(run(s, p, all_sent(n)).state, key) == if offered(
            run(s, p, all_sent(n)).offers,
            key,
        ) {
            counted_entry(entry_at(s, key))
        } else {
            entry_at(s, key)
        },
    decreases n,
{
    let (s1, p1) = begun(s, p);
    let r = run(s, p, all_sent(n));
    if n > 0 && p1.awaiting() is Some {
        let outcomes = all_sent(n);
        let first = p1.awaiting()->0.key;
        let (s2, p2) = reported(s1, p1, true);
        assert(outcomes[0]);
        assert(outcomes.drop_first() =~= all_sent((n - 1) as nat));
        let rest = run(s2, p2, all_sent((n - 1) as nat));
        assert(r.offers =~= seq![Offer { target: p1.awaiting()->0, sent: true }] + rest.offers);
        assert forall|i: int, j: int| 0 <= i < j < rest.offers.len() implies (
        #[trigger] rest.offers[i]).target.key != (#[trigger] rest.offers[j]).target.key by {
            assert(r.offers[i + 1] == rest.offers[i]);
            assert(r.offers[j + 1] == rest.offers[j]);
        }
        lemma_run_entry(s2, p2, (n - 1) as nat, key);
        assert(s2.subscriptions == s1.counted(first).subscriptions);
        assert(s1.subscriptions == s.subscriptions);
        assert(entry_at(s2, key) == if key == first {
            counted_entry(entry_at(s, key))
        } else {
            entry_at(s, key)
        });
        assert(r.offers[0].target.key == first);
        if offered(rest.offers, key) {
            let i = choose|i: int|
                0 <= i < rest.offers.len() && (#[trigger] rest.offers[i]).target.key == key;
            assert(r.offers[i + 1] == rest.offers[i]);
            assert(r.offers[0].target.key != r.offers[i + 1].target.key);
        }
        if offered(r.offers, key) && key != first {
            let i = choose|i: int|
                0 <= i < r.offers.len() && (#[trigger] r.offers[i]).target.key == key;
            assert(rest.offers[i - 1] == r.offers[i]);
        }
    }
}

/// How many of the first `n` messages `plans` reach the subscription `key`.
pub open spec fn arrived(s: ServerView, plans: Seq<PublicationView>, key: KeyView, n: nat) -> nat
    decreases n,
{
    if n == 0 {
        0
    } else {
        let m = (n - 1) as nat;
        arrived(s, plans, key, m) + if reaches(after_messages(s, plans, m), plans[n - 1], key) {
            1nat
        } else {
            0nat
        }
    }
}

proof fn lemma_message_entry(s: ServerView, p: PublicationView, key: KeyView)
    requires
        is_plan(s.subscriptions, p.subject, p.reply_to, p.payload, p),
    ensures
        entry_at(run(s, p, all_sent(p.direct.len() + p.groups.len())).state, key) == if reaches(
            s,
            p,
            key,
        ) {
            counted_entry(entry_at(s, key))
        } else {
            entry_at(s, key)
        },
        reaches(s, p, key) ==> interested(s.subscriptions, p.subject, key),
        interested(s.subscriptions, p.subject, key) && s.subscriptions[key].queue_group is None
            ==> reaches(s, p, key),
{
    let offers = run(s, p, all_sent(p.direct.len() + p.groups.len())).offers;
    law_messages_arrive_once(s, p);
    law_successful_publication(s, p);
    lemma_run_entry(s, p, p.direct.len() + p.groups.len(), key);
    if offered(offers, key) {
        let i = choose|i: int| 0 <= i < offers.len() && (#[trigger] offers[i]).target.key == key;
        lemma_offer_at(s, p, i);
        assert(offers[i].sent);
        assert(reaches(s, p, key));
    }
    if reaches(s, p, key) {
        let i = choose|i: int|
            0 <= i < offers.len() && (#[trigger] offers[i]).sent && offers[i].target.key == key;
        lemma_offer_at(s, p, i);
        assert(offered(offers, key));
    }
    if interested(s.subscriptions, p.subject, key) && s.subscriptions[key].queue_group is None {
        let i = choose|i: int| 0 <= i < p.direct.len() && (#[trigger] p.direct[i]).key == key;
        lemma_offer_at(s, p, i);
        assert(offers[i].sent && offers[i].target.key == key);
    }
}

/// How many messages a subscription still gets: as many as its limit says, and one if it has had
/// them all already.
pub open spec fn left_of(entry: EntryView, max: u64) -> nat {
    if entry.delivered < max {
        (max - entry.delivered) as nat
    } else {
        1
    }
}

/// A subscription with a limit, in a queue or not, is there until it got as many messages as it
/// is to get, and no longer; it gets no more than these.
pub proof fn law_limited_subscription_ends(
    s: ServerView,
    key: KeyView,
    max: u64,
    plans: Seq<PublicationView>,
    n: nat,
)
    requires
        s.subscriptions.contains_key(key),
        s.subscriptions[key].max_msgs == Some(max),
        are_published(s, plans),
        n <= plans.len(),
    ensures
        arrived(s, plans, key, n) <= left_of(s.subscriptions[key], max),
        entry_at(after_messages(s, plans, n), key) == if arrived(s, plans, key, n) < left_of(
            s.subscriptions[key],
            max,
        ) {
            Some(
                EntryView {
                    delivered: (s.subscriptions[key].delivered + arrived(s, plans, key, n)) as u64,
                    ..s.subscriptions[key]
                },
            )
        } else {
            None
        },
    decreases n,
{
    if n > 0 {
        let m = (n - 1) as nat;
        law_limited_subscription_ends(s, key, max, plans, m);
        lemma_message_entry(after_messages(s, plans, m), plans[m as int], key);
    }
}

/// Of `n` messages that it covers a subscription outside queues gets the first ones up to its
/// limit, or all if they are fewer, and it is there as long as they are fewer.
pub proof fn law_limited_subscription_gets_its_messages(
    s: ServerView,
    key: KeyView,
    max: u64,
    plans: Seq<PublicationView>,
    n: nat,
)
    requires
        s.subscriptions.contains_key(key),
        s.subscriptions[key].max_msgs == Some(max),
        s.subscriptions[key].queue_group is None,
        are_published(s, plans),
        forall|i: int|
            0 <= i < plans.len() ==> subject_matches(
                s.subscriptions[key].subject,
                (#[trigger] plans[i]).subject,
            ),
        n <= plans.len(),
    ensures
        arrived(s, plans, key, n) == if n < left_of(s.subscriptions[key], max) {
            n
        } else {
            left_of(s.subscriptions[key], max)
        },
        after_messages(s, plans, n).subscriptions.contains_key(key) <==> n < left_of(
            s.subscriptions[key],
            max,
        ),
        forall|i: int| #![trigger plans[i]]
            0 <= i < n ==> (reaches(after_messages(s, plans, i as nat), plans[i], key) <==> i
                < left_of(s.subscriptions[key], max)),
    decreases n,
{
    law_limited_subscription_ends(s, key, max, plans, n);
    if n > 0 {
        let m = (n - 1) as nat;
        law_limited_subscription_gets_its_messages(s, key, max, plans, m);
        law_limited_subscription_ends(s, key, max, plans, m);
        lemma_message_entry(after_messages(s, plans, m), plans[m as int], key);
    }
}

/// A subscription without a limit stays and counts its messages; outside queues it gets all that
/// it covers.
#[verifier::rlimit(40)]
pub proof fn law_unlimited_subscription_stays(
    s: ServerView,
    key: KeyView,
    plans: Seq<PublicationView>,
    n: nat,
)
    requires
        s.subscriptions.contains_key(key),
        s.subscriptions[key].max_msgs is None,
        are_published(s, plans),
        n <= plans.len(),
    ensures
        entry_at(after_messages(s, plans, n), key) == Some(
            EntryView {
                delivered: if s.subscriptions[key].delivered + arrived(s, plans, key, n)
                    <= u64::MAX {
                    (s.subscriptions[key].delivered + arrived(s, plans, key, n)) as u64
                } else {
                    u64::MAX
                },
                ..s.subscriptions[key]
            },
        ),
        forall|i: int| #![trigger plans[i]]
            0 <= i < n && s.subscriptions[key].queue_group is None ==> (reaches(
                after_messages(s, plans, i as nat),
                plans[i],
                key,
            ) <==> subject_matches(s.subscriptions[key].subject, plans[i].subject)),
    decreases n,
{
    if n > 0 {
        let m = (n - 1) as nat;
        law_unlimited_subscription_stays(s, key, plans, m);
        let e = s.subscriptions[key];
        let t = after_messages(s, plans, m);
        let p = plans[m as int];
        lemma_message_entry(t, p, key);
        let r = reaches(t, p, key);
        assert(t.subscriptions[key].subject == e.subject && t.subscriptions[key].queue_group
            == e.queue_group && t.subscriptions[key].max_msgs is None);
        assert(e.queue_group is None ==> (r <==> subject_matches(e.subject, p.subject)));
        assert(entry_at(after_messages(s, plans, n), key) == if r {
            counted_entry(entry_at(t, key))
        } else {
            entry_at(t, key)
        });
        let before = arrived(s, plans, key, m);
        assert(arrived(s, plans, key, n) == before + if r {
            1nat
        } else {
            0nat
        });
    }
}

proof fn lemma_roster_kept(
    s: ServerView,
    t: ServerView,
    subject: Seq<char>,
    q: Seq<char>,
    keys: Seq<KeyView>,
)
    requires
        is_roster(s.subscriptions, subject, q, keys),
        forall|i: int|
            0 <= i < keys.len() ==> s.subscriptions[#[trigger] keys[i]].max_msgs is None,
        only_counts(s.subscriptions, t.subscriptions),
    ensures
        is_roster(t.subscriptions, subject, q, keys),
        forall|i: int|
            0 <= i < keys.len() ==> {
                &&& t.subscriptions[#[trigger] keys[i]].max_msgs is None
                &&& t.subscriptions[keys[i]].subject == s.subscriptions[keys[i]].subject
            },
        queue_for(t.subscriptions, q, keys) == queue_for(s.subscriptions, q, keys),
        queue_live(t.subscriptions, queue_for(s.subscriptions, q, keys)),
{
    assert forall|k: KeyView|
        #[trigger]
        keys.contains(k) <==> interested(t.subscriptions, subject, k)
            && t.subscriptions[k].queue_group == Some(q) by {
        if keys.contains(k) {
            let i = choose|i: int| 0 <= i < keys.len() && keys[i] == k;
            assert(s.subscriptions[keys[i]].max_msgs is None);
            assert(s.subscriptions.contains_key(k));
            assert(t.subscriptions.contains_key(k));
        }
        if interested(t.subscriptions, subject, k) && t.subscriptions[k].queue_group == Some(q) {
            assert(interested(s.subscriptions, subject, k));
        }
    }
    assert forall|i: int| 0 <= i < keys.len() implies {
        &&& t.subscriptions[#[trigger] keys[i]].max_msgs is None
        &&& t.subscriptions[keys[i]].subject == s.subscriptions[keys[i]].subject
    } by {
        assert(keys.contains(keys[i]));
        assert(s.subscriptions[keys[i]].max_msgs is None);
        assert(t.subscriptions.contains_key(keys[i]));
    }
    let v = queue_for(s.subscriptions, q, keys);
    let w = queue_for(t.subscriptions, q, keys);
    assert forall|x: Seq<char>| v.subjects.contains(x) <==> w.subjects.contains(x) by {
        if v.subjects.contains(x) {
            let i = choose|i: int|
                0 <= i < keys.len() && s.subscriptions[#[trigger] keys[i]].subject == x;
            assert(t.subscriptions[keys[i]].subject == x);
        }
        if w.subjects.contains(x) {
            let i = choose|i: int|
                0 <= i < keys.len() && t.subscriptions[#[trigger] keys[i]].subject == x;
            assert(s.subscriptions[keys[i]].subject == x);
        }
    }
    assert(v =~= w);
    assert forall|x: Seq<char>| #[trigger] v.subjects.contains(x) implies subject_live(
        t.subscriptions,
        x,
        v.queue,
    ) by {
        let i = choose|i: int|
            0 <= i < keys.len() && s.subscriptions[#[trigger] keys[i]].subject == x;
        assert(keys.contains(keys[i]));
        assert(t.subscriptions.contains_key(keys[i]));
    }
}

/// Of the subscriptions of a queue that a message is for, whatever their subjects, exactly one
/// gets it, once: the one whose turn it is.
pub proof fn law_one_member_of_a_queue_gets_a_message(
    s: ServerView,
    p: PublicationView,
    q: Seq<char>,
    keys: Seq<KeyView>,
) -> (i: int)
    requires
        is_plan(s.subscriptions, p.subject, p.reply_to, p.payload, p),
        is_roster(s.subscriptions, p.subject, q, keys),
        keys.len() > 0,
    ensures
        ({
            let offers = run(s, p, all_sent(p.direct.len() + p.groups.len())).offers;
            &&& 0 <= i < offers.len()
            &&& offers[i].sent
            &&& offers[i].target.key == keys[s.turn(queue_for(s.subscriptions, q, keys)) as int % keys.len() as int]
            &&& forall|j: int|
                0 <= j < offers.len() && j != i
                    ==> s.subscriptions[(#[trigger] offers[j]).target.key].queue_group != Some(q)
        }),
        forall|k: KeyView|
            s.subscriptions[k].queue_group == Some(q) ==> (#[trigger] reaches(s, p, k) <==> k
                == keys[s.turn(queue_for(s.subscriptions, q, keys)) as int % keys.len() as int]),
{
    let d = p.direct.len() as int;
    let offers = run(s, p, all_sent(p.direct.len() + p.groups.len())).offers;
    let turn = s.turn(queue_for(s.subscriptions, q, keys)) as int % keys.len() as int;
    vstd::arithmetic::div_mod::lemma_mod_bound(s.turn(queue_for(s.subscriptions, q, keys)) as int, keys.len() as int);
    law_successful_publication(s, p);
    let g = law_queue_members_are_the_interested_ones(s, p, q, keys);
    let i = d + g;
    assert(p.groups[g].key == queue_for(s.subscriptions, q, keys));
    assert(offers[i] == (Offer { target: p.groups[g].members[turn], sent: true }));
    assert(p.groups[g].members[turn].key == keys[turn]);
    assert forall|j: int| 0 <= j < offers.len() && j != i implies s.subscriptions[(
    #[trigger] offers[j]).target.key].queue_group != Some(q) by {
        lemma_offer_at(s, p, j);
        if j >= d {
            assert(p.groups[j - d].key.queue != q);
        }
    }
    assert forall|k: KeyView| s.subscriptions[k].queue_group == Some(q) implies (
    #[trigger] reaches(s, p, k) <==> k == keys[turn]) by {
        if reaches(s, p, k) {
            let j = choose|j: int|
                0 <= j < offers.len() && (#[trigger] offers[j]).sent && offers[j].target.key == k;
            assert(j == i);
        }
        if k == keys[turn] {
            assert(offers[i].sent && offers[i].target.key == k);
        }
    }
    i
}

/// The offer at `j` of a successful publication is to an interested subscription: one outside
/// queues, or one of the group at `j`, after those.
proof fn lemma_offer_at(s: ServerView, p: PublicationView, j: int)
    requires
        is_plan(s.subscriptions, p.subject, p.reply_to, p.payload, p),
        0 <= j < p.direct.len() + p.groups.len(),
    ensures
        ({
            let d = p.direct.len() as int;
            let offers = run(s, p, all_sent(p.direct.len() + p.groups.len())).offers;
            &&& offers.len() == p.direct.len() + p.groups.len()
            &&& offers[j].sent
            &&& j < d ==> offers[j].target == p.direct[j]
            &&& is_target(
                s.subscriptions,
                p.subject,
                if j < d {
                    None
                } else {
                    Some(p.groups[j - d].key.queue)
                },
                offers[j].target,
            )
        }),
{
    let d = p.direct.len() as int;
    let offers = run(s, p, all_sent(p.direct.len() + p.groups.len())).offers;
    law_successful_publication(s, p);
    if j < d {
        assert(offers[j].target == p.direct[j]);
        assert(is_target(s.subscriptions, p.subject, None, p.direct[j]));
    } else {
        let group = p.groups[j - d];
        let n = group.members.len() as int;
        let turn = s.turn(group.key) as int % n;
        vstd::arithmetic::div_mod::lemma_mod_bound(s.turn(group.key) as int, n);
        assert(offers[d + (j - d)] == (Offer { target: group.members[turn], sent: true }));
        assert(is_target(s.subscriptions, p.subject, Some(group.key.queue), group.members[turn]));
    }
}

/// Messages see a queue in the same way exactly if they are for the same subscriptions of it.
pub proof fn law_queue_views_tell_rosters_apart(
    s: ServerView,
    p: PublicationView,
    subject: Seq<char>,
    q: Seq<char>,
    keys: Seq<KeyView>,
)
    requires
        is_plan(s.subscriptions, p.subject, p.reply_to, p.payload, p),
        is_roster(s.subscriptions, subject, q, keys),
        keys.len() > 0,
    ensures
        has_group(p.groups, queue_for(s.subscriptions, q, keys)) <==> is_roster(
            s.subscriptions,
            p.subject,
            q,
            keys,
        ),
{
    let subs = s.subscriptions;
    let v = queue_for(subs, q, keys);
    if is_roster(subs, p.subject, q, keys) {
        let g = law_queue_members_are_the_interested_ones(s, p, q, keys);
        assert(p.groups[g].key == v);
    }
    if has_group(p.groups, v) {
        let g = choose|g: int| 0 <= g < p.groups.len() && (#[trigger] p.groups[g]).key == v;
        let members = p.groups[g].members;
        assert(v.subjects == subjects_of(subs, members));
        assert forall|k: KeyView|
            #[trigger]
            keys.contains(k) <==> interested(subs, p.subject, k) && subs[k].queue_group == Some(
                q,
            ) by {
            if keys.contains(k) {
                let i = choose|i: int| 0 <= i < keys.len() && keys[i] == k;
                assert(subs[keys[i]].subject == subs[k].subject);
                assert(v.subjects.contains(subs[k].subject));
                assert(subjects_of(subs, members).contains(subs[k].subject));
                let j = choose|j: int|
                    0 <= j < members.len() && subs[(#[trigger] members[j]).key].subject
                        == subs[k].subject;
                assert(is_target(
                    subs,
                    p.subject,
                    Some(p.groups[g].key.queue),
                    p.groups[g].members[j],
                ));
            }
            if interested(subs, p.subject, k) && subs[k].queue_group == Some(q) {
                assert(groups_list(p.groups, q, k));
                let h = choose|h: int|
                    0 <= h < p.groups.len() && (#[trigger] p.groups[h]).key.queue == q && lists(
                        p.groups[h].members,
                        k,
                    );
                if h < g {
                    assert(p.groups[h].key.queue != p.groups[g].key.queue);
                } else if g < h {
                    assert(p.groups[g].key.queue != p.groups[h].key.queue);
                }
                let j = choose|j: int| 0 <= j < members.len() && (#[trigger] members[j]).key == k;
                assert(subs[members[j].key].subject == subs[k].subject);
                assert(subjects_of(subs, members).contains(subs[k].subject));
                assert(v.subjects.contains(subs[k].subject));
                let i = choose|i: int|
                    0 <= i < keys.len() && subs[#[trigger] keys[i]].subject == subs[k].subject;
                assert(keys.contains(keys[i]));
                assert(interested(subs, subject, k));
            }
        }
    }
}

/// The message at `i` is, when it is published, for the subscriptions `keys` of the queue `q`.
pub open spec fn is_for(
    s: ServerView,
    plans: Seq<PublicationView>,
    q: Seq<char>,
    keys: Seq<KeyView>,
    i: int,
) -> bool {
    is_roster(after_messages(s, plans, i as nat).subscriptions, plans[i].subject, q, keys)
}

/// How many of the first `n` messages are for the subscriptions `keys` of the queue `q`.
pub open spec fn earlier(
    s: ServerView,
    plans: Seq<PublicationView>,
    q: Seq<char>,
    keys: Seq<KeyView>,
    n: nat,
) -> nat
    decreases n,
{
    if n == 0 {
        0
    } else {
        earlier(s, plans, q, keys, (n - 1) as nat) + if is_for(s, plans, q, keys, n - 1) {
            1nat
        } else {
            0nat
        }
    }
}

/// The subscriptions of a queue get messages in turn. Let `keys` be those that some message is
/// for, and let any messages be published one after the other. Each that is for `keys` reaches the
/// one after that which the last such message reached, starting anew after the last, and reaches
/// no other subscription of the queue. Messages that are for others, of the queue or not, leave
/// the turn as it is.
#[verifier::rlimit(40)]
pub proof fn law_queue_members_take_turns(
    s: ServerView,
    subject: Seq<char>,
    q: Seq<char>,
    keys: Seq<KeyView>,
    plans: Seq<PublicationView>,
    n: nat,
)
    requires
        is_roster(s.subscriptions, subject, q, keys),
        keys.len() > 0,
        forall|i: int|
            0 <= i < keys.len() ==> s.subscriptions[#[trigger] keys[i]].max_msgs is None,
        are_published(s, plans),
        n <= plans.len(),
    ensures
        after_messages(s, plans, n).turn(queue_for(s.subscriptions, q, keys)) as int
            % keys.len() as int == (s.turn(queue_for(s.subscriptions, q, keys)) + earlier(
            s,
            plans,
            q,
            keys,
            n,
        )) % keys.len() as int,
        is_roster(after_messages(s, plans, n).subscriptions, subject, q, keys),
        queue_for(after_messages(s, plans, n).subscriptions, q, keys) == queue_for(
            s.subscriptions,
            q,
            keys,
        ),
        forall|i: int|
            0 <= i < keys.len() ==> {
                let e = after_messages(s, plans, n).subscriptions[#[trigger] keys[i]];
                e.max_msgs is None && e.subject == s.subscriptions[keys[i]].subject
            },
        forall|i: int, k: KeyView|
            #![trigger reaches(after_messages(s, plans, i as nat), plans[i], k)]
            0 <= i < n && is_for(s, plans, q, keys, i) && after_messages(
                s,
                plans,
                i as nat,
            ).subscriptions[k].queue_group == Some(q) ==> (reaches(
                after_messages(s, plans, i as nat),
                plans[i],
                k,
            ) <==> k == keys[(s.turn(queue_for(s.subscriptions, q, keys)) + earlier(
                s,
                plans,
                q,
                keys,
                i as nat,
            )) % keys.len() as int]),
    decreases n,
{
    let len = keys.len() as int;
    if n > 0 {
        let m = (n - 1) as nat;
        law_queue_members_take_turns(s, subject, q, keys, plans, m);
        let v = queue_for(s.subscriptions, q, keys);
        let t = after_messages(s, plans, m);
        let p = plans[m as int];
        let r = run(t, p, all_sent(p.direct.len() + p.groups.len()));
        let before = s.turn(v) + earlier(s, plans, q, keys, m);
        let turn = t.turn(v) as int % len;
        assert(r.state == after_messages(s, plans, n));
        law_successful_publication(t, p);
        lemma_roster_kept(t, r.state, subject, q, keys);
        law_queue_views_tell_rosters_apart(t, p, subject, q, keys);
        if is_for(s, plans, q, keys, m as int) {
            let g = law_queue_members_are_the_interested_ones(t, p, q, keys);
            let j = law_one_member_of_a_queue_gets_a_message(t, p, q, keys);
            assert(p.groups[g].key == v);
            assert(r.state.turn(v) == (turn + 1) % len);
            vstd::arithmetic::div_mod::lemma_add_mod_noop(before, 1, len);
            vstd::arithmetic::div_mod::lemma_add_mod_noop(turn, 1, len);
            vstd::arithmetic::div_mod::lemma_mod_twice(turn + 1, len);
            vstd::arithmetic::div_mod::lemma_mod_twice(t.turn(v) as int, len);
            vstd::arithmetic::div_mod::lemma_mod_twice(before, len);
        } else {
            assert(r.state.turn(v) == t.turn(v));
        }
    }
}

/// How many of the first `n` messages are for the subscriptions `keys` of the queue `q`, as the
/// server is before the first.
pub open spec fn alike_before(
    s: ServerView,
    plans: Seq<PublicationView>,
    q: Seq<char>,
    keys: Seq<KeyView>,
    n: nat,
) -> nat
    decreases n,
{
    if n == 0 {
        0
    } else {
        alike_before(s, plans, q, keys, (n - 1) as nat) + if is_roster(
            s.subscriptions,
            plans[n - 1].subject,
            q,
            keys,
        ) {
            1nat
        } else {
            0nat
        }
    }
}

/// Where each of some messages is either for all of the subscriptions `keys` of a queue, and no
/// others of it, or for none of them, those that are for them reach them in turn.
pub proof fn law_queue_turns_pass_over_other_messages(
    s: ServerView,
    q: Seq<char>,
    keys: Seq<KeyView>,
    plans: Seq<PublicationView>,
    i: int,
    k: KeyView,
)
    requires
        keys.len() > 0,
        forall|m: int|
            0 <= m < keys.len() ==> s.subscriptions[#[trigger] keys[m]].max_msgs is None,
        are_published(s, plans),
        forall|j: int| #![trigger plans[j]]
            0 <= j < plans.len() ==> is_roster(s.subscriptions, plans[j].subject, q, keys) || (
            forall|m: int|
                0 <= m < keys.len() ==> !interested(
                    s.subscriptions,
                    plans[j].subject,
                    #[trigger] keys[m],
                )),
        0 <= i < plans.len(),
        is_roster(s.subscriptions, plans[i].subject, q, keys),
        after_messages(s, plans, i as nat).subscriptions[k].queue_group == Some(q),
    ensures
        reaches(after_messages(s, plans, i as nat), plans[i], k) <==> k == keys[(s.turn(
            queue_for(s.subscriptions, q, keys),
        ) + alike_before(s, plans, q, keys, i as nat)) % keys.len() as int],
{
    let subject = plans[i].subject;
    lemma_alike(s, subject, q, keys, plans, i as nat);
    law_queue_members_take_turns(s, subject, q, keys, plans, i as nat);
    law_queue_members_take_turns(s, subject, q, keys, plans, (i + 1) as nat);
    assert(is_for(s, plans, q, keys, i));
}

#[verifier::rlimit(40)]
proof fn lemma_alike(
    s: ServerView,
    subject: Seq<char>,
    q: Seq<char>,
    keys: Seq<KeyView>,
    plans: Seq<PublicationView>,
    n: nat,
)
    requires
        is_roster(s.subscriptions, subject, q, keys),
        keys.len() > 0,
        forall|m: int|
            0 <= m < keys.len() ==> s.subscriptions[#[trigger] keys[m]].max_msgs is None,
        are_published(s, plans),
        forall|j: int| #![trigger plans[j]]
            0 <= j < plans.len() ==> is_roster(s.subscriptions, plans[j].subject, q, keys) || (
            forall|m: int|
                0 <= m < keys.len() ==> !interested(
                    s.subscriptions,
                    plans[j].subject,
                    #[trigger] keys[m],
                )),
        n <= plans.len(),
    ensures
        earlier(s, plans, q, keys, n) == alike_before(s, plans, q, keys, n),
    decreases n,
{
    if n > 0 {
        let j = n - 1;
        lemma_alike(s, subject, q, keys, plans, j as nat);
        law_queue_members_take_turns(s, subject, q, keys, plans, j as nat);
        let t = after_messages(s, plans, j as nat);
        if is_roster(s.subscriptions, plans[j].subject, q, keys) {
            law_queue_members_take_turns(s, plans[j].subject, q, keys, plans, j as nat);
            assert(is_for(s, plans, q, keys, j));
        } else {
            assert(keys.contains(keys[0]));
            assert(interested(s.subscriptions, subject, keys[0]));
            assert(!interested(s.subscriptions, plans[j].subject, keys[0]));
            assert(t.subscriptions[keys[0]].subject == s.subscriptions[keys[0]].subject);
            assert(!interested(t.subscriptions, plans[j].subject, keys[0]));
            assert(!is_for(s, plans, q, keys, j));
        }
    }
}

/// Of as many messages for certain subscriptions of a queue as these are, each of them gets
/// exactly one, whatever other messages come between.
#[verifier::rlimit(40)]
pub proof fn law_queue_is_fair(
    s: ServerView,
    subject: Seq<char>,
    q: Seq<char>,
    keys: Seq<KeyView>,
    plans: Seq<PublicationView>,
    m: int,
) -> (i: int)
    requires
        is_roster(s.subscriptions, subject, q, keys),
        forall|i: int|
            0 <= i < keys.len() ==> s.subscriptions[#[trigger] keys[i]].max_msgs is None,
        are_published(s, plans),
        earlier(s, plans, q, keys, plans.len()) == keys.len(),
        0 <= m < keys.len(),
    ensures
        0 <= i < plans.len(),
        is_for(s, plans, q, keys, i),
        forall|j: int| #![trigger plans[j]]
            0 <= j < plans.len() && is_for(s, plans, q, keys, j) ==> (reaches(
                after_messages(s, plans, j as nat),
                plans[j],
                keys[m],
            ) <==> j == i),
{
    let len = keys.len() as int;
    let v = queue_for(s.subscriptions, q, keys);
    let start = s.turn(v) as int % len;
    vstd::arithmetic::div_mod::lemma_mod_bound(s.turn(v) as int, len);
    let c: int = if m >= start {
        m - start
    } else {
        m - start + len
    };
    let i = lemma_nth(s, plans, q, keys, plans.len(), c as nat);
    assert forall|j: int| #![trigger plans[j]]
        0 <= j < plans.len() && is_for(s, plans, q, keys, j) implies (reaches(
        after_messages(s, plans, j as nat),
        plans[j],
        keys[m],
    ) <==> j == i) by {
        let e = earlier(s, plans, q, keys, j as nat);
        lemma_earlier_grows(s, plans, q, keys, (j + 1) as nat, plans.len());
        if i < j {
            lemma_earlier_grows(s, plans, q, keys, (i + 1) as nat, j as nat);
        } else if j < i {
            lemma_earlier_grows(s, plans, q, keys, (j + 1) as nat, i as nat);
        }
        assert(e == c <==> j == i);
        assert(e < len);
        lemma_wrap(start, e as int, len);
        vstd::arithmetic::div_mod::lemma_add_mod_noop(s.turn(v) as int, e as int, len);
        vstd::arithmetic::div_mod::lemma_small_mod(e, len as nat);
        lemma_whose_turn(s, subject, q, keys, plans, m, j);
    }
    i
}

proof fn lemma_earlier_grows(
    s: ServerView,
    plans: Seq<PublicationView>,
    q: Seq<char>,
    keys: Seq<KeyView>,
    a: nat,
    b: nat,
)
    requires
        a <= b,
    ensures
        earlier(s, plans, q, keys, a) <= earlier(s, plans, q, keys, b),
    decreases b,
{
    if a < b {
        lemma_earlier_grows(s, plans, q, keys, a, (b - 1) as nat);
    }
}

/// The message that comes after `c` others for `keys`.
proof fn lemma_nth(
    s: ServerView,
    plans: Seq<PublicationView>,
    q: Seq<char>,
    keys: Seq<KeyView>,
    n: nat,
    c: nat,
) -> (i: int)
    requires
        c < earlier(s, plans, q, keys, n),
    ensures
        0 <= i < n,
        is_for(s, plans, q, keys, i),
        earlier(s, plans, q, keys, i as nat) == c,
    decreases n,
{
    let m = (n - 1) as nat;
    if c < earlier(s, plans, q, keys, m) {
        lemma_nth(s, plans, q, keys, m, c)
    } else {
        m as int
    }
}

/// The message at `j`, which is for `keys`, reaches the one at `m` exactly if it is up.
#[verifier::rlimit(40)]
proof fn lemma_whose_turn(
    s: ServerView,
    subject: Seq<char>,
    q: Seq<char>,
    keys: Seq<KeyView>,
    plans: Seq<PublicationView>,
    m: int,
    j: int,
)
    requires
        is_roster(s.subscriptions, subject, q, keys),
        forall|i: int|
            0 <= i < keys.len() ==> s.subscriptions[#[trigger] keys[i]].max_msgs is None,
        are_published(s, plans),
        0 <= m < keys.len(),
        0 <= j < plans.len(),
        is_for(s, plans, q, keys, j),
    ensures
        reaches(after_messages(s, plans, j as nat), plans[j], keys[m]) <==> m == (s.turn(
            queue_for(s.subscriptions, q, keys),
        ) + earlier(s, plans, q, keys, j as nat)) % keys.len() as int,
{
    let len = keys.len() as int;
    let t = after_messages(s, plans, j as nat);
    law_queue_members_take_turns(s, subject, q, keys, plans, (j + 1) as nat);
    assert(is_roster(t.subscriptions, plans[j].subject, q, keys));
    assert(keys.contains(keys[m]));
    let up = s.turn(queue_for(s.subscriptions, q, keys)) + earlier(s, plans, q, keys, j as nat);
    let w = up % len;
    vstd::arithmetic::div_mod::lemma_mod_bound(up as int, len);
    assert(reaches(t, plans[j], keys[m]) <==> keys[m] == keys[w]);
    law_key_order_total(keys[m], keys[w]);
    if m < w {
        assert(keys[m].before(keys[w]));
    } else if w < m {
        assert(keys[w].before(keys[m]));
    }
    if keys[m] == keys[w] && m != w {
        law_key_order_total(keys[m], keys[m]);
    }
}

} // verus!
