//! Publishing: whom a message goes to, and in which order it is offered.
use vstd::prelude::*;

use crate::server::{
    queue_live, EntryView, KeyView, ServerError, ServerErrorView, ServerState,
    ServerView, SubscriptionEntry, SubscriptionKey,
};
use crate::server::queue::{QueueKey, QueueView};
use crate::subjects::{subject_matches, Subject};
use crate::text::{
    copy_bytes, copy_optional, law_text_order_irreflexive, law_text_order_total,
    law_text_order_transitive, optional_text, same_text, text_before,
};
use crate::wire::{MessageView, OutboundMessage, ServerMessage};

verus! {

/// A subscription that a message is to be offered to, with the channel to its client.
#[derive(Debug)]
pub struct Target {
    pub key: SubscriptionKey,
    pub sender: u64,
}

/// A `Target` by its texts.
pub struct TargetView {
    pub key: KeyView,
    pub sender: u64,
}

impl View for Target {
    type V = TargetView;

    open spec fn view(&self) -> TargetView {
        TargetView { key: self.key@, sender: self.sender }
    }
}

/// A queue as a message sees it, with those of its subscriptions that the message is for, of which
/// one is to get it.
#[derive(Debug)]
pub struct QueueGroup {
    pub key: QueueKey,
    pub members: Vec<Target>,
}

/// A `QueueGroup` by its texts.
#[verifier::ext_equal]
pub struct GroupView {
    pub key: QueueView,
    pub members: Seq<TargetView>,
}

/// The views of targets.
pub open spec fn target_views(targets: Seq<Target>) -> Seq<TargetView> {
    Seq::new(targets.len(), |i: int| targets[i]@)
}

/// The views of groups.
pub open spec fn group_views(groups: Seq<QueueGroup>) -> Seq<GroupView> {
    Seq::new(groups.len(), |i: int| groups[i]@)
}

impl View for QueueGroup {
    type V = GroupView;

    open spec fn view(&self) -> GroupView {
        GroupView { key: self.key@, members: target_views(self.members@) }
    }
}

/// How far a queue got: whose turn it was, and how many were tried since.
#[derive(Debug, Clone, Copy)]
pub struct Attempt {
    pub start: usize,
    pub tried: usize,
}

/// A published message that is being delivered.
#[derive(Debug)]
pub struct Publication {
    subject: String,
    reply_to: Option<String>,
    payload: Vec<u8>,
    direct: Vec<Target>,
    next_direct: usize,
    groups: Vec<QueueGroup>,
    next_group: usize,
    attempt: Option<Attempt>,
}

/// A `Publication` by its texts: the message, the subscriptions outside queues and the queues
/// that are still to be served, and how far the first queue got.
#[verifier::ext_equal]
pub struct PublicationView {
    pub subject: Seq<char>,
    pub reply_to: Option<Seq<char>>,
    pub payload: Seq<u8>,
    pub direct: Seq<TargetView>,
    pub groups: Seq<GroupView>,
    pub attempt: Option<Attempt>,
}

impl View for Publication {
    type V = PublicationView;

    closed spec fn view(&self) -> PublicationView {
        PublicationView {
            subject: self.subject@,
            reply_to: optional_text(self.reply_to),
            payload: self.payload@,
            direct: target_views(self.direct@).skip(self.next_direct as int),
            groups: group_views(self.groups@).skip(self.next_group as int),
            attempt: self.attempt,
        }
    }
}

/// The subscription `k` gets a message on `subject`.
pub open spec fn interested(
    subscriptions: Map<KeyView, EntryView>,
    subject: Seq<char>,
    k: KeyView,
) -> bool {
    subscriptions.contains_key(k) && subject_matches(subscriptions[k].subject, subject)
}

/// `t` is an interested subscription that takes part in the queue `queue`, or in none.
pub open spec fn is_target(
    subscriptions: Map<KeyView, EntryView>,
    subject: Seq<char>,
    queue: Option<Seq<char>>,
    t: TargetView,
) -> bool {
    &&& interested(subscriptions, subject, t.key)
    &&& subscriptions[t.key].queue_group == queue
    &&& subscriptions[t.key].sender == t.sender
}

/// The keys stand in strictly ascending order.
pub open spec fn ascending(members: Seq<TargetView>) -> bool {
    forall|i: int, j: int|
        0 <= i < j < members.len() ==> (#[trigger] members[i]).key.before(
            (#[trigger] members[j]).key,
        )
}

/// Some target has the key `k`.
pub open spec fn lists(targets: Seq<TargetView>, k: KeyView) -> bool {
    exists|i: int| 0 <= i < targets.len() && (#[trigger] targets[i]).key == k
}

/// Some group is that of the queue `q` and lists `k`.
pub open spec fn groups_list(groups: Seq<GroupView>, q: Seq<char>, k: KeyView) -> bool {
    exists|g: int|
        0 <= g < groups.len() && (#[trigger] groups[g]).key.queue == q && lists(
            groups[g].members,
            k,
        )
}

/// `direct` lists each interested subscription outside queues once.
pub open spec fn is_direct_plan(
    subscriptions: Map<KeyView, EntryView>,
    subject: Seq<char>,
    direct: Seq<TargetView>,
) -> bool {
    &&& forall|i: int|
        0 <= i < direct.len() ==> is_target(subscriptions, subject, None, #[trigger] direct[i])
    &&& forall|i: int, j: int|
        0 <= i < j < direct.len() ==> (#[trigger] direct[i]).key != (#[trigger] direct[j]).key
    &&& forall|k: KeyView|
        #[trigger]
        interested(subscriptions, subject, k) && subscriptions[k].queue_group is None ==> lists(
            direct,
            k,
        )
}

/// The subjects of the subscriptions `members`.
pub open spec fn subjects_of(
    subscriptions: Map<KeyView, EntryView>,
    members: Seq<TargetView>,
) -> Set<Seq<char>> {
    Set::new(
        |x: Seq<char>|
            exists|i: int|
                0 <= i < members.len() && subscriptions[(#[trigger] members[i]).key].subject == x,
    )
}

/// `groups` has each queue of an interested subscription once, with its interested
/// subscriptions in ascending order, and their subjects.
pub open spec fn is_group_plan(
    subscriptions: Map<KeyView, EntryView>,
    subject: Seq<char>,
    groups: Seq<GroupView>,
) -> bool {
    &&& forall|g: int| #![trigger groups[g]]
        0 <= g < groups.len() ==> {
            &&& 0 < groups[g].members.len() <= usize::MAX
            &&& ascending(groups[g].members)
            &&& groups[g].key.subjects == subjects_of(subscriptions, groups[g].members)
            &&& forall|i: int|
                0 <= i < groups[g].members.len() ==> is_target(
                    subscriptions,
                    subject,
                    Some(groups[g].key.queue),
                    #[trigger] groups[g].members[i],
                )
        }
    &&& forall|g: int, h: int|
        0 <= g < h < groups.len() ==> (#[trigger] groups[g]).key.queue != (
        #[trigger] groups[h]).key.queue
    &&& forall|k: KeyView|
        #[trigger]
        interested(subscriptions, subject, k) && subscriptions[k].queue_group is Some ==> groups_list(
            groups,
            subscriptions[k].queue_group->0,
            k,
        )
}

/// `p` is a message that was just published: nothing of it is delivered yet.
pub open spec fn is_plan(
    subscriptions: Map<KeyView, EntryView>,
    subject: Seq<char>,
    reply_to: Option<Seq<char>>,
    payload: Seq<u8>,
    p: PublicationView,
) -> bool {
    &&& p.subject == subject
    &&& p.reply_to == reply_to
    &&& p.payload == payload
    &&& p.attempt is None
    &&& is_direct_plan(subscriptions, subject, p.direct)
    &&& is_group_plan(subscriptions, subject, p.groups)
}

proof fn lemma_before_irreflexive(a: KeyView)
    ensures
        !a.before(a),
{
    law_text_order_irreflexive(a.client_id);
    law_text_order_irreflexive(a.sid);
}

/// The order of keys is transitive.
pub proof fn law_key_order_transitive(a: KeyView, b: KeyView, c: KeyView)
    requires
        a.before(b),
        b.before(c),
    ensures
        a.before(c),
{
    if text_before(a.client_id, b.client_id) && text_before(b.client_id, c.client_id) {
        law_text_order_transitive(a.client_id, b.client_id, c.client_id);
    } else if a.client_id == b.client_id && b.client_id == c.client_id {
        law_text_order_transitive(a.sid, b.sid, c.sid);
    }
}

/// Of two different keys one comes before the other, and not the other way round.
pub proof fn law_key_order_total(a: KeyView, b: KeyView)
    ensures
        a == b || a.before(b) || b.before(a),
        !(a.before(b) && b.before(a)),
{
    law_text_order_total(a.client_id, b.client_id);
    law_text_order_total(a.sid, b.sid);
    if a.before(b) && b.before(a) {
        law_key_order_transitive(a, b, a);
        lemma_before_irreflexive(a);
    }
}

/// Puts `target`, whose key is new, where it belongs among the ascending `members`.
fn insert_member(members: &mut Vec<Target>, target: Target)
    requires
        ascending(target_views(old(members)@)),
        !lists(target_views(old(members)@), target@.key),
    ensures
        ascending(target_views(final(members)@)),
        final(members)@.len() == old(members)@.len() + 1,
        forall|i: int|
            0 <= i < final(members)@.len() ==> (#[trigger] target_views(final(members)@)[i])
                == target@ || target_views(old(members)@).contains(
                target_views(final(members)@)[i],
            ),
        lists(target_views(final(members)@), target@.key),
        forall|k: KeyView| #[trigger]
            lists(target_views(old(members)@), k) ==> lists(target_views(final(members)@), k),
{
    let ghost old_views = target_views(members@);
    let mut pos: usize = 0;
    while pos < members.len() && members[pos].key.is_before(&target.key)
        invariant
            pos <= members@.len(),
            members@ == old(members)@,
            forall|j: int| 0 <= j < pos ==> (#[trigger] members@[j])@.key.before(target@.key),
        decreases members.len() - pos,
    {
        pos += 1;
    }
    members.insert(pos, target);
    proof {
        let views = target_views(members@);
        let p = pos as int;
        assert(views =~= old_views.insert(p, target@));
        if p < old_views.len() {
            assert(old_views[p].key != target@.key);
            law_key_order_total(old_views[p].key, target@.key);
            assert(old(members)@[p]@ == old_views[p]);
        }
        assert forall|i: int, j: int| 0 <= i < j < views.len() implies (
        #[trigger] views[i]).key.before((#[trigger] views[j]).key) by {
            if j < p {
                assert(views[i] == old_views[i] && views[j] == old_views[j]);
            } else if j == p {
                assert(views[i] == old(members)@[i]@);
            } else {
                assert(views[j] == old_views[j - 1]);
                if i < p {
                    assert(views[i] == old_views[i]);
                } else if i == p {
                    if j - 1 > p {
                        law_key_order_transitive(
                            target@.key,
                            old_views[p].key,
                            old_views[j - 1].key,
                        );
                    }
                } else {
                    assert(views[i] == old_views[i - 1]);
                }
            }
        }
        assert forall|i: int| 0 <= i < views.len() implies (#[trigger] views[i]) == target@
            || old_views.contains(views[i]) by {
            if i < p {
                assert(old_views[i] == views[i]);
            } else if i > p {
                assert(old_views[i - 1] == views[i]);
            }
        }
        assert(views[p].key == target@.key);
        assert forall|k: KeyView| #[trigger] lists(old_views, k) implies lists(views, k) by {
            let i = choose|i: int| 0 <= i < old_views.len() && (#[trigger] old_views[i]).key == k;
            if i < p {
                assert(views[i].key == k);
            } else {
                assert(views[i + 1].key == k);
            }
        }
    }
}

/// Some entry before `n` has the key `k`.
spec fn seen(state: &ServerState, n: int, k: KeyView) -> bool {
    exists|j: int| 0 <= j < n && state.subscriptions.key_view(j) == k
}

/// What the plan of the first `n` subscriptions looks like.
spec fn planned(
    state: &ServerState,
    subject: Seq<char>,
    n: int,
    direct: Seq<TargetView>,
    groups: Seq<GroupView>,
) -> bool {
    let subs = state@.subscriptions;
    &&& forall|i: int|
        0 <= i < direct.len() ==> is_target(subs, subject, None, #[trigger] direct[i]) && seen(
            state,
            n,
            direct[i].key,
        )
    &&& forall|i: int, j: int|
        0 <= i < j < direct.len() ==> (#[trigger] direct[i]).key != (#[trigger] direct[j]).key
    &&& forall|g: int| #![trigger groups[g]]
        0 <= g < groups.len() ==> {
            &&& groups[g].members.len() > 0
            &&& ascending(groups[g].members)
            &&& groups[g].key.subjects == subjects_of(subs, groups[g].members)
            &&& forall|i: int|
                0 <= i < groups[g].members.len() ==> is_target(
                    subs,
                    subject,
                    Some(groups[g].key.queue),
                    #[trigger] groups[g].members[i],
                ) && seen(state, n, groups[g].members[i].key)
        }
    &&& forall|g: int, h: int|
        0 <= g < h < groups.len() ==> (#[trigger] groups[g]).key.queue != (
        #[trigger] groups[h]).key.queue
    &&& forall|k: KeyView|
        #[trigger]
        interested(subs, subject, k) && seen(state, n, k) ==> match subs[k].queue_group {
            None => lists(direct, k),
            Some(q) => groups_list(groups, q, k),
        }
}

/// The group of the queue, if there is one.
fn find_group(groups: &Vec<QueueGroup>, queue: &str) -> (res: Option<usize>)
    ensures
        match res {
            Some(g) => g < groups@.len() && groups@[g as int].key@.queue == queue@,
            None => forall|g: int|
                0 <= g < groups@.len() ==> (#[trigger] groups@[g]).key@.queue != queue@,
        },
{
    let mut g: usize = 0;
    while g < groups.len()
        invariant
            g <= groups@.len(),
            forall|h: int| 0 <= h < g ==> (#[trigger] groups@[h]).key@.queue != queue@,
        decreases groups.len() - g,
    {
        if same_text(groups[g].key.queue(), queue) {
            return Some(g);
        }
        g += 1;
    }
    None
}

/// Adds `target`, a subscription to `subject`, to the group of the queue, which may be new, and
/// says which group that is.
fn place(groups: &mut Vec<QueueGroup>, queue: &str, subject: &Subject, target: Target) -> (g: usize)
    requires
        forall|h: int|
            0 <= h < old(groups)@.len() ==> ascending(
                (#[trigger] group_views(old(groups)@)[h]).members,
            ),
        forall|h: int|
            0 <= h < old(groups)@.len() && (#[trigger] group_views(old(groups)@)[h]).key.queue
                == queue@ ==> !lists(group_views(old(groups)@)[h].members, target@.key),
    ensures
        ({
            let before = group_views(old(groups)@);
            let after = group_views(final(groups)@);
            &&& g <= before.len()
            &&& g < after.len()
            &&& after[g as int].key.queue == queue@
            &&& after[g as int].members.len() > 0
            &&& ascending(after[g as int].members)
            &&& lists(after[g as int].members, target@.key)
            &&& forall|i: int|
                0 <= i < after[g as int].members.len() ==> (#[trigger] after[g as int].members[i])
                    == target@ || (g < before.len() && before[g as int].members.contains(
                    after[g as int].members[i],
                ))
            &&& if g < before.len() {
                &&& after.len() == before.len()
                &&& before[g as int].key.queue == queue@
                &&& after[g as int].key.subjects == before[g as int].key.subjects.insert(subject@)
                &&& forall|k: KeyView| #[trigger]
                    lists(before[g as int].members, k) ==> lists(after[g as int].members, k)
            } else {
                &&& after.len() == before.len() + 1
                &&& after[g as int].key.subjects == set![subject@]
                &&& forall|h: int|
                    0 <= h < before.len() ==> (#[trigger] before[h]).key.queue != queue@
            }
            &&& forall|h: int| 0 <= h < before.len() && h != g ==> #[trigger] after[h] == before[h]
        }),
{
    let ghost before = group_views(groups@);
    match find_group(groups, queue) {
        Some(g) => {
            proof {
                assert(before[g as int] == groups@[g as int]@);
            }
            insert_member(&mut groups[g].members, target);
            groups[g].key.add_subject(subject);
            proof {
                let after = group_views(groups@);
                assert(after[g as int] == groups@[g as int]@);
                assert forall|h: int| 0 <= h < before.len() && h != g implies #[trigger] after[h]
                    == before[h] by {
                    assert(groups@[h] == old(groups)@[h]);
                }
            }
            g
        },
        None => {
            let g = groups.len();
            let mut members: Vec<Target> = Vec::new();
            members.push(target);
            groups.push(QueueGroup { key: QueueKey::new(subject, queue), members });
            proof {
                let after = group_views(groups@);
                assert(after[g as int] == groups@[g as int]@);
                assert(after[g as int].members =~= seq![target@]);
                assert(after[g as int].members[0] == target@);
                assert forall|h: int| 0 <= h < before.len() implies (#[trigger] before[h]).key.queue
                    != queue@ by {
                    assert(old(groups)@[h].key@.queue != queue@);
                }
                assert forall|h: int| 0 <= h < before.len() implies #[trigger] after[h]
                    == before[h] by {
                    assert(groups@[h] == old(groups)@[h]);
                }
            }
            g
        },
    }
}

/// Passing over a subscription that is not interested.
proof fn lemma_planned_skip(
    state: &ServerState,
    subject: Seq<char>,
    n: int,
    direct: Seq<TargetView>,
    groups: Seq<GroupView>,
)
    requires
        0 <= n,
        planned(state, subject, n, direct, groups),
        !interested(state@.subscriptions, subject, state.subscriptions.key_view(n)),
    ensures
        planned(state, subject, n + 1, direct, groups),
{
    lemma_seen_grows(state, n);
}

proof fn lemma_seen_grows(state: &ServerState, n: int)
    requires
        0 <= n,
    ensures
        forall|k: KeyView| #[trigger] seen(state, n, k) ==> seen(state, n + 1, k),
        forall|k: KeyView| #[trigger]
            seen(state, n + 1, k) ==> seen(state, n, k) || k == state.subscriptions.key_view(n),
        seen(state, n + 1, state.subscriptions.key_view(n)),
{
    assert forall|k: KeyView| #[trigger] seen(state, n, k) implies seen(state, n + 1, k) by {
        let j = choose|j: int| 0 <= j < n && state.subscriptions.key_view(j) == k;
        assert(0 <= j < n + 1 && state.subscriptions.key_view(j) == k);
    }
    assert forall|k: KeyView| #[trigger] seen(state, n + 1, k) implies seen(state, n, k) || k
        == state.subscriptions.key_view(n) by {
        let j = choose|j: int| 0 <= j < n + 1 && state.subscriptions.key_view(j) == k;
        if j < n {
            assert(0 <= j < n && state.subscriptions.key_view(j) == k);
        }
    }
    assert(0 <= n < n + 1 && state.subscriptions.key_view(n) == state.subscriptions.key_view(n));
}

/// Adding a subscription outside queues.
proof fn lemma_planned_direct(
    state: &ServerState,
    subject: Seq<char>,
    n: int,
    direct: Seq<TargetView>,
    groups: Seq<GroupView>,
    t: TargetView,
)
    requires
        0 <= n,
        planned(state, subject, n, direct, groups),
        is_target(state@.subscriptions, subject, None, t),
        t.key == state.subscriptions.key_view(n),
        !seen(state, n, t.key),
    ensures
        planned(state, subject, n + 1, direct.push(t), groups),
{
    lemma_seen_grows(state, n);
    let after = direct.push(t);
    let subs = state@.subscriptions;
    assert forall|i: int| 0 <= i < after.len() implies is_target(
        subs,
        subject,
        None,
        #[trigger] after[i],
    ) && seen(state, n + 1, after[i].key) by {
        if i < direct.len() {
            assert(after[i] == direct[i]);
        }
    }
    assert forall|i: int, j: int| 0 <= i < j < after.len() implies (#[trigger] after[i]).key != (
    #[trigger] after[j]).key by {
        assert(after[i] == direct[i]);
        if j < direct.len() {
            assert(after[j] == direct[j]);
        }
    }
    assert forall|k: KeyView| #[trigger]
        interested(subs, subject, k) && seen(state, n + 1, k) && subs[k].queue_group is None implies lists(
        after,
        k,
    ) by {
        if k == t.key {
            assert(after[direct.len() as int].key == k);
        } else {
            let i = choose|i: int| 0 <= i < direct.len() && (#[trigger] direct[i]).key == k;
            assert(after[i].key == k);
        }
    }
}

/// With a subscription its subject comes to the group at `g`.
proof fn lemma_planned_subjects(
    subs: Map<KeyView, EntryView>,
    before: Seq<GroupView>,
    after: Seq<GroupView>,
    g: int,
    t: TargetView,
)
    requires
        0 <= g <= before.len(),
        g < after.len(),
        lists(after[g].members, t.key),
        forall|i: int|
            0 <= i < after[g].members.len() ==> (#[trigger] after[g].members[i]) == t || (g
                < before.len() && before[g].members.contains(after[g].members[i])),
        g < before.len() ==> {
            &&& before[g].key.subjects == subjects_of(subs, before[g].members)
            &&& after[g].key.subjects == before[g].key.subjects.insert(subs[t.key].subject)
            &&& forall|k: KeyView| #[trigger]
                lists(before[g].members, k) ==> lists(after[g].members, k)
        },
        g == before.len() ==> after[g].key.subjects == set![subs[t.key].subject],
    ensures
        after[g].key.subjects == subjects_of(subs, after[g].members),
{
    let members = after[g].members;
    let all = subjects_of(subs, members);
    assert forall|x: Seq<char>| after[g].key.subjects.contains(x) implies all.contains(x) by {
        let k = if x == subs[t.key].subject {
            t.key
        } else {
            let i = choose|i: int|
                0 <= i < before[g].members.len() && subs[(
                #[trigger] before[g].members[i]).key].subject == x;
            assert(lists(before[g].members, before[g].members[i].key));
            before[g].members[i].key
        };
        let j = choose|j: int| 0 <= j < members.len() && (#[trigger] members[j]).key == k;
        assert(subs[members[j].key].subject == x);
    }
    assert forall|x: Seq<char>| all.contains(x) implies after[g].key.subjects.contains(x) by {
        let i = choose|i: int|
            0 <= i < members.len() && subs[(#[trigger] members[i]).key].subject == x;
        if members[i] != t {
            let j = choose|j: int|
                0 <= j < before[g].members.len() && before[g].members[j] == members[i];
            assert(subs[before[g].members[j].key].subject == x);
        }
    }
    assert(after[g].key.subjects =~= all);
}

/// Adding a subscription to the group at `g`.
proof fn lemma_planned_group(
    state: &ServerState,
    subject: Seq<char>,
    n: int,
    direct: Seq<TargetView>,
    before: Seq<GroupView>,
    after: Seq<GroupView>,
    g: int,
    q: Seq<char>,
    t: TargetView,
)
    requires
        0 <= n,
        planned(state, subject, n, direct, before),
        is_target(state@.subscriptions, subject, Some(q), t),
        t.key == state.subscriptions.key_view(n),
        0 <= g <= before.len(),
        g < after.len(),
        after[g].key.queue == q,
        after[g].members.len() > 0,
        ascending(after[g].members),
        lists(after[g].members, t.key),
        forall|i: int|
            0 <= i < after[g].members.len() ==> (#[trigger] after[g].members[i]) == t || (g
                < before.len() && before[g].members.contains(after[g].members[i])),
        g < before.len() ==> {
            &&& after.len() == before.len()
            &&& before[g].key.queue == q
            &&& after[g].key.subjects == before[g].key.subjects.insert(
                state@.subscriptions[t.key].subject,
            )
            &&& forall|k: KeyView| #[trigger]
                lists(before[g].members, k) ==> lists(after[g].members, k)
        },
        g == before.len() ==> {
            &&& after.len() == before.len() + 1
            &&& after[g].key.subjects == set![state@.subscriptions[t.key].subject]
            &&& forall|h: int| 0 <= h < before.len() ==> (#[trigger] before[h]).key.queue != q
        },
        forall|h: int| 0 <= h < before.len() && h != g ==> #[trigger] after[h] == before[h],
    ensures
        planned(state, subject, n + 1, direct, after),
{
    lemma_seen_grows(state, n);
    let subs = state@.subscriptions;
    assert forall|h: int| #![trigger after[h]] 0 <= h < after.len() implies {
        &&& after[h].members.len() > 0
        &&& ascending(after[h].members)
        &&& after[h].key.subjects == subjects_of(subs, after[h].members)
        &&& forall|i: int|
            0 <= i < after[h].members.len() ==> is_target(
                subs,
                subject,
                Some(after[h].key.queue),
                #[trigger] after[h].members[i],
            ) && seen(state, n + 1, after[h].members[i].key)
    } by {
        if h == g {
            lemma_planned_subjects(subs, before, after, g, t);
            assert forall|i: int| 0 <= i < after[h].members.len() implies is_target(
                subs,
                subject,
                Some(after[h].key.queue),
                #[trigger] after[h].members[i],
            ) && seen(state, n + 1, after[h].members[i].key) by {
                let m = after[h].members[i];
                if m != t {
                    let j = choose|j: int|
                        0 <= j < before[g].members.len() && before[g].members[j] == m;
                    assert(is_target(subs, subject, Some(before[g].key.queue), before[g].members[j]));
                }
            }
        } else {
            assert(after[h] == before[h]);
        }
    }
    assert forall|a: int, b: int| 0 <= a < b < after.len() implies (
    #[trigger] after[a]).key.queue != (#[trigger] after[b]).key.queue by {
        if b < before.len() {
            assert(before[a].key.queue != before[b].key.queue);
        }
    }
    assert forall|k: KeyView| #[trigger]
        interested(subs, subject, k) && seen(state, n + 1, k) implies match subs[k].queue_group {
        None => lists(direct, k),
        Some(p) => groups_list(after, p, k),
    } by {
        if k == t.key {
            assert(after[g].key.queue == q && lists(after[g].members, k));
        } else if subs[k].queue_group is Some {
            let p = subs[k].queue_group->0;
            let h = choose|h: int|
                0 <= h < before.len() && (#[trigger] before[h]).key.queue == p && lists(
                    before[h].members,
                    k,
                );
            assert(after[h].key.queue == p && lists(after[h].members, k));
        }
    }
}

impl ServerState {
    /// Publishes a message: finds whom it is for. A payload that is too large is refused.
    pub fn publish(&self, subject: &str, reply_to: Option<String>, payload: Vec<u8>) -> (res:
        Result<Publication, ServerError>)
        ensures
            match res {
                Ok(publication) => payload@.len() <= self@.config.max_payload && is_plan(
                    self@.subscriptions,
                    subject@,
                    optional_text(reply_to),
                    payload@,
                    publication@,
                ),
                Err(error) => payload@.len() > self@.config.max_payload && error@
                    == (ServerErrorView::PayloadTooLarge {
                    size: payload@.len(),
                    max: self@.config.max_payload as nat,
                }),
            },
    {
        if payload.len() > self.config.max_payload {
            return Err(
                ServerError::PayloadTooLarge { size: payload.len(), max: self.config.max_payload },
            );
        }
        let mut direct: Vec<Target> = Vec::new();
        let mut groups: Vec<QueueGroup> = Vec::new();
        let n = self.subscriptions.len();
        let mut i: usize = 0;
        while i < n
            invariant
                n == self.subscriptions.spec_len(),
                i <= n,
                planned(self, subject@, i as int, target_views(direct@), group_views(groups@)),
            decreases n - i,
        {
            let (key, entry) = self.subscriptions.entry(i);
            let ghost before_direct = target_views(direct@);
            let ghost before_groups = group_views(groups@);
            proof {
                assert(!seen(self, i as int, key@));
            }
            if entry.subject.matches(subject) {
                let target = Target { key: key.clone(), sender: entry.sender };
                match &entry.queue_group {
                    Some(queue) => {
                        proof {
                            assert forall|h: int|
                                0 <= h < groups@.len() && (#[trigger] before_groups[h]).key.queue
                                    == queue@ implies !lists(
                                before_groups[h].members,
                                target@.key,
                            ) by {
                                if lists(before_groups[h].members, target@.key) {
                                    let j = choose|j: int|
                                        0 <= j < before_groups[h].members.len() && (
                                        #[trigger] before_groups[h].members[j]).key == target@.key;
                                    assert(seen(
                                        self,
                                        i as int,
                                        before_groups[h].members[j].key,
                                    ));
                                }
                            }
                        }
                        let ghost q = queue@;
                        let ghost t = target@;
                        let g = place(&mut groups, queue.as_str(), &entry.subject, target);
                        proof {
                            lemma_planned_group(
                                self,
                                subject@,
                                i as int,
                                before_direct,
                                before_groups,
                                group_views(groups@),
                                g as int,
                                q,
                                t,
                            );
                        }
                    },
                    None => {
                        let ghost t = target@;
                        direct.push(target);
                        proof {
                            assert(target_views(direct@) =~= before_direct.push(t));
                            lemma_planned_direct(
                                self,
                                subject@,
                                i as int,
                                before_direct,
                                before_groups,
                                t,
                            );
                        }
                    },
                }
            } else {
                proof {
                    lemma_planned_skip(
                        self,
                        subject@,
                        i as int,
                        before_direct,
                        before_groups,
                    );
                }
            }
            i += 1;
        }
        proof {
            assert forall|g: int| 0 <= g < groups@.len() implies (
            #[trigger] groups@[g]).members@.len() > 0 by {
                assert(group_views(groups@)[g] == groups@[g]@);
            }
        }
        let publication = Publication {
            subject: subject.to_owned(),
            reply_to,
            payload,
            direct,
            next_direct: 0,
            groups,
            next_group: 0,
            attempt: None,
        };
        proof {
            let subs = self@.subscriptions;
            let p = publication@;
            assert(p.direct =~= target_views(direct@));
            assert(p.groups =~= group_views(groups@));
            assert forall|g: int| 0 <= g < p.groups.len() implies (
            #[trigger] p.groups[g]).members.len() <= usize::MAX by {
                assert(p.groups[g] == groups@[g]@);
                assert(groups@[g].members.len() <= usize::MAX);
            }
            assert forall|k: KeyView| #[trigger] interested(subs, subject@, k) implies seen(
                self,
                n as int,
                k,
            ) by {
                assert(self.subscriptions@.contains_key(k));
            }
        }
        Ok(publication)
    }
}

/// One more than `n`, as far as numbers go.
pub open spec fn one_more(n: u64) -> u64 {
    if n == u64::MAX {
        n
    } else {
        (n + 1) as u64
    }
}

impl ServerView {
    /// The next message is the last that the subscription `key` gets.
    pub open spec fn at_limit(self, key: KeyView) -> bool {
        &&& self.subscriptions.contains_key(key)
        &&& self.subscriptions[key].max_msgs is Some
        &&& one_more(self.subscriptions[key].delivered) >= self.subscriptions[key].max_msgs->0
    }

    /// `self` after the subscription `key` got a message: one that reached its limit ends.
    pub open spec fn counted(self, key: KeyView) -> ServerView {
        if !self.subscriptions.contains_key(key) {
            self
        } else {
            let entry = self.subscriptions[key];
            let delivered = one_more(entry.delivered);
            if self.at_limit(key) {
                self.dropped(key)
            } else {
                ServerView {
                    subscriptions: self.subscriptions.insert(key, EntryView { delivered, ..entry }),
                    ..self
                }
            }
        }
    }

    /// `self` after a message was offered to the subscription `key`: where the channel to the
    /// client is closed, the client is gone.
    pub open spec fn dispatched(self, key: KeyView, sent: bool) -> ServerView {
        if sent {
            self.counted(key)
        } else {
            self.unregistered(key.client_id)
        }
    }

    /// Whose turn it is among the subscriptions of a queue that see messages as `q` says: the first
    /// one's, unless a turn is kept.
    pub open spec fn turn(self, q: QueueView) -> usize {
        if self.queue_counters.contains_key(q) {
            self.queue_counters[q]
        } else {
            0
        }
    }

    /// `self` after the queue `q` of `len` members was served by the member at `selected`, or by
    /// none: the turn is the next member's, if each subject of `q` still has a subscription.
    pub open spec fn served(self, q: QueueView, selected: Option<int>, len: int) -> ServerView {
        ServerView {
            queue_counters: match selected {
                Some(index) => if queue_live(self.subscriptions, q) {
                    self.queue_counters.insert(q, ((index + 1) % len) as usize)
                } else {
                    self.queue_counters.remove(q)
                },
                None => self.queue_counters.remove(q),
            },
            ..self
        }
    }
}

/// The member that an attempt is at.
pub open spec fn member_at(a: Attempt, len: int) -> int {
    (a.start + a.tried) % len
}

impl PublicationView {
    /// Every group has members, and an attempt is one at the first group, once the subscriptions
    /// outside queues are served.
    pub open spec fn wf(self) -> bool {
        &&& forall|g: int|
            0 <= g < self.groups.len() ==> 0 < (#[trigger] self.groups[g]).members.len()
                <= usize::MAX
        &&& self.attempt matches Some(a) ==> {
            &&& self.direct.len() == 0
            &&& self.groups.len() > 0
            &&& a.start < self.groups[0].members.len()
            &&& a.tried < self.groups[0].members.len()
        }
    }

    /// Nothing is left to be served.
    pub open spec fn finished(self) -> bool {
        self.direct.len() == 0 && self.groups.len() == 0
    }

    /// The subscription that the message is being offered to.
    pub open spec fn awaiting(self) -> Option<TargetView> {
        if self.direct.len() > 0 {
            Some(self.direct[0])
        } else if self.groups.len() > 0 && self.attempt is Some {
            let members = self.groups[0].members;
            Some(members[member_at(self.attempt->0, members.len() as int)])
        } else {
            None
        }
    }

    /// The message as the subscription `t` gets it.
    pub open spec fn message_for(self, t: TargetView) -> MessageView {
        MessageView::Msg {
            subject: self.subject,
            sid: t.key.sid,
            reply_to: self.reply_to,
            payload: self.payload,
        }
    }
}

/// The state and the publication once the next subscription to be served is settled: a queue
/// starts with the member whose turn it is.
pub open spec fn begun(s: ServerView, p: PublicationView) -> (ServerView, PublicationView) {
    if p.direct.len() == 0 && p.groups.len() > 0 && p.attempt is None {
        let q = p.groups[0].key;
        let start = (s.turn(q) as int % p.groups[0].members.len() as int) as usize;
        (
            ServerView { queue_counters: s.queue_counters.insert(q, s.turn(q)), ..s },
            PublicationView { attempt: Some(Attempt { start, tried: 0 }), ..p },
        )
    } else {
        (s, p)
    }
}

/// The state and the publication after the message was offered to the awaiting subscription. A
/// queue is done once a member got the message or all were tried; else the next member is up.
pub open spec fn reported(s: ServerView, p: PublicationView, sent: bool) -> (
    ServerView,
    PublicationView,
) {
    if p.awaiting() is None {
        (s, p)
    } else if p.direct.len() > 0 {
        (
            s.dispatched(p.direct[0].key, sent),
            PublicationView { direct: p.direct.skip(1), ..p },
        )
    } else {
        let a = p.attempt->0;
        let q = p.groups[0].key;
        let len = p.groups[0].members.len() as int;
        let t = s.dispatched(p.awaiting()->0.key, sent);
        let done = PublicationView { groups: p.groups.skip(1), attempt: None, ..p };
        if sent {
            (t.served(q, Some(member_at(a, len)), len), done)
        } else if a.tried + 1 < len {
            (
                t,
                PublicationView {
                    attempt: Some(Attempt { start: a.start, tried: (a.tried + 1) as usize }),
                    ..p
                },
            )
        } else {
            (t.served(q, None, len), done)
        }
    }
}

/// A message on its way into the channel of a client, and the subscription that it is for.
#[derive(Debug)]
pub struct Delivery {
    pub key: SubscriptionKey,
    pub sender: u64,
    pub message: ServerMessage,
}

impl Publication {
    #[verifier::type_invariant]
    spec fn in_bounds(self) -> bool {
        &&& self.next_direct <= self.direct@.len()
        &&& self.next_group <= self.groups@.len()
        &&& forall|g: int|
            0 <= g < self.groups@.len() ==> (#[trigger] self.groups@[g]).members@.len() > 0
        &&& self.attempt matches Some(a) ==> {
            &&& self.next_direct == self.direct@.len()
            &&& self.next_group < self.groups@.len()
            &&& a.start < self.groups@[self.next_group as int].members@.len()
            &&& a.tried < self.groups@[self.next_group as int].members@.len()
        }
    }

    /// Whether nothing is left to be served.
    pub fn is_finished(&self) -> (res: bool)
        ensures
            res == self@.finished(),
    {
        proof {
            use_type_invariant(self);
        }
        self.next_direct == self.direct.len() && self.next_group == self.groups.len()
    }

    /// The message as the subscription `target` gets it.
    fn message_for(&self, target: &Target) -> (res: ServerMessage)
        ensures
            res@ == self@.message_for(target@),
    {
        ServerMessage::Msg(
            OutboundMessage {
                subject: self.subject.clone(),
                sid: target.key.sid.clone(),
                reply_to: copy_optional(&self.reply_to),
                payload: copy_bytes(&self.payload),
            },
        )
    }

    /// The subscription that the message is being offered to.
    fn awaiting(&self) -> (res: Option<&Target>)
        ensures
            match res {
                Some(t) => self@.awaiting() == Some(t@),
                None => self@.awaiting() is None,
            },
    {
        proof {
            use_type_invariant(self);
        }
        if self.next_direct < self.direct.len() {
            let t = &self.direct[self.next_direct];
            proof {
                assert(self@.direct[0] == t@);
            }
            return Some(t);
        }
        if self.next_group < self.groups.len() {
            let group = &self.groups[self.next_group];
            proof {
                assert(self@.groups[0] == group@);
            }
            if let Some(a) = self.attempt {
                let index = wrapped_index(a, group.members.len());
                let t = &group.members[index];
                proof {
                    assert(group@.members[index as int] == t@);
                }
                return Some(t);
            }
        }
        None
    }
}

/// The member that an attempt is at.
fn wrapped_index(a: Attempt, len: usize) -> (res: usize)
    requires
        a.start < len,
        a.tried < len,
    ensures
        res == member_at(a, len as int),
        res < len,
{
    let left: usize = len - a.start;
    if a.tried < left {
        proof {
            vstd::arithmetic::div_mod::lemma_small_mod((a.start + a.tried) as nat, len as nat);
        }
        a.start + a.tried
    } else {
        proof {
            vstd::arithmetic::div_mod::lemma_mod_sub_multiples_vanish(
                a.start + a.tried,
                len as int,
            );
            vstd::arithmetic::div_mod::lemma_small_mod((a.tried - left) as nat, len as nat);
        }
        a.tried - left
    }
}

impl ServerState {
    /// Whether the next message is the last that the subscription `key` gets.
    fn at_limit(&self, key: &SubscriptionKey) -> (res: bool)
        ensures
            res == self@.at_limit(key@),
    {
        match self.subscriptions.get(key) {
            Some(entry) => match entry.max_msgs {
                Some(max) => entry.delivered.saturating_add(1) >= max,
                None => false,
            },
            None => false,
        }
    }

    /// What an offered message does to the subscription `key`: `sent` says whether the channel
    /// took it, which is also the answer.
    pub fn dispatch_subscription(&mut self, key: &SubscriptionKey, sent: bool) -> (res: bool)
        ensures
            final(self)@ == old(self)@.dispatched(key@, sent),
            res == sent,
    {
        if !sent {
            self.unregister_client(key.client_id.as_str());
            return false;
        }
        let target: Option<SubscriptionEntry> = match self.subscriptions.get(key) {
            Some(entry) => Some(entry.clone()),
            None => None,
        };
        if let Some(mut entry) = target {
            if self.at_limit(key) {
                self.subscriptions.remove(key);
                if let Some(queue) = &entry.queue_group {
                    self.prune_queue_key(entry.subject.raw(), queue.as_str());
                }
            } else {
                entry.delivered = entry.delivered.saturating_add(1);
                self.subscriptions.insert(key.clone(), entry);
            }
        }
        true
    }

    /// Whose turn it is among the `len` members of a queue.
    fn start_queue_group(&mut self, queue_key: &QueueKey, len: usize) -> (res: usize)
        requires
            len > 0,
        ensures
            res == old(self)@.turn(queue_key@) % len,
            final(self)@ == (ServerView {
                queue_counters: old(self)@.queue_counters.insert(
                    queue_key@,
                    old(self)@.turn(queue_key@),
                ),
                ..old(self)@
            }),
    {
        let cursor: usize = match self.queue_counters.get(queue_key) {
            Some(cursor) => *cursor,
            None => 0,
        };
        self.queue_counters.insert(queue_key.clone(), cursor);
        cursor % len
    }

    /// Notes which of the `len` members of a queue got a message, if one did.
    fn finish_queue_group(&mut self, queue_key: &QueueKey, selected: Option<usize>, len: usize)
        requires
            len > 0,
            selected matches Some(index) ==> index < len,
        ensures
            final(self)@ == old(self)@.served(
                queue_key@,
                match selected {
                    Some(index) => Some(index as int),
                    None => None,
                },
                len as int,
            ),
    {
        match selected {
            Some(index) => {
                let next: usize = if index + 1 == len {
                    0
                } else {
                    index + 1
                };
                proof {
                    if index + 1 < len {
                        vstd::arithmetic::div_mod::lemma_small_mod(
                            (index + 1) as nat,
                            len as nat,
                        );
                    } else {
                        vstd::arithmetic::div_mod::lemma_mod_self_0(len as int);
                    }
                }
                if self.queue_exists(queue_key) {
                    self.queue_counters.insert(queue_key.clone(), next);
                } else {
                    self.queue_counters.remove(queue_key);
                }
            },
            None => {
                self.queue_counters.remove(queue_key);
            },
        }
    }

    /// The next message to be put into a channel, if something is left to be served.
    pub fn next_delivery(&mut self, publication: &mut Publication) -> (res: Option<Delivery>)
        ensures
            (final(self)@, final(publication)@) == begun(old(self)@, old(publication)@),
            match res {
                Some(delivery) => final(publication)@.awaiting() matches Some(t) && {
                    &&& delivery.key@ == t.key
                    &&& delivery.sender == t.sender
                    &&& delivery.message@ == final(publication)@.message_for(t)
                },
                None => final(publication)@.awaiting() is None && final(publication)@.finished(),
            },
    {
        proof {
            use_type_invariant(&*publication);
        }
        let ghost p0 = publication@;
        if publication.next_direct == publication.direct.len() && publication.next_group
            < publication.groups.len() && publication.attempt.is_none() {
            let group = &publication.groups[publication.next_group];
            proof {
                assert(p0.groups[0] == group@);
            }
            let start = self.start_queue_group(&group.key, group.members.len());
            publication.attempt = Some(Attempt { start, tried: 0 });
        }
        match publication.awaiting() {
            Some(target) => Some(
                Delivery {
                    key: target.key.clone(),
                    sender: target.sender,
                    message: publication.message_for(target),
                },
            ),
            None => None,
        }
    }

    /// Takes note of whether the channel took the message of the last delivery, and says whether
    /// the subscription thereby reached its limit and ended.
    pub fn report_delivery(&mut self, publication: &mut Publication, sent: bool) -> (ended: bool)
        ensures
            (final(self)@, final(publication)@) == reported(old(self)@, old(publication)@, sent),
            ended == (sent && match old(publication)@.awaiting() {
                Some(t) => old(self)@.at_limit(t.key),
                None => false,
            }),
    {
        proof {
            use_type_invariant(&*publication);
        }
        let ghost p0 = publication@;
        let key: SubscriptionKey = match publication.awaiting() {
            Some(target) => target.key.clone(),
            None => {
                return false;
            },
        };
        let ended: bool = sent && self.at_limit(&key);
        self.dispatch_subscription(&key, sent);
        if publication.next_direct < publication.direct.len() {
            publication.next_direct = publication.next_direct + 1;
            proof {
                assert(publication@.direct =~= p0.direct.skip(1));
                assert(publication@ =~= reported(old(self)@, p0, sent).1);
            }
            return ended;
        }
        let group = &publication.groups[publication.next_group];
        proof {
            assert(p0.groups[0] == group@);
        }
        let len = group.members.len();
        let total: usize = publication.groups.len();
        if let Some(a) = publication.attempt {
            assert(publication.next_group < total);
            if sent {
                let index = wrapped_index(a, len);
                self.finish_queue_group(&group.key, Some(index), len);
            } else if a.tried + 1 < len {
                publication.attempt = Some(Attempt { start: a.start, tried: a.tried + 1 });
                return ended;
            } else {
                self.finish_queue_group(&group.key, None, len);
            }
            let next: usize = publication.next_group + 1;
            publication.attempt = None;
            publication.next_group = next;
            proof {
                assert(publication@.groups =~= p0.groups.skip(1));
                assert(publication@ =~= reported(old(self)@, p0, sent).1);
            }
        }
        ended
    }
}

} // verus!
