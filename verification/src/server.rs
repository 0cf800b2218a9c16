//! Clients, subscriptions and the dispatch of published messages.
use vstd::prelude::*;

use chrono::NaiveDateTime;

use crate::outside::{quoted, quoted_text};
use crate::server::queue::{QueueKey, QueueView};
use crate::subjects::{subject_error, Subject, SubjectError, SubjectErrorView};
use crate::table::{Table, TableKey};
use crate::text::{
    copy_optional, decimal, decimal_text, optional_text, same_text, text_before,
    text_less, text_set,
};
use crate::wire::{info_message, info_message_at, info_of, MessageView, ServerMessage};

pub mod call_laws;
pub mod laws;
pub mod publish;
pub mod queue;
pub mod request_laws;

verus! {

/// A subscription's name: the client and the identifier that the client chose.
#[derive(Debug, PartialEq, Eq, Hash, PartialOrd, Ord)]
pub struct SubscriptionKey {
    pub client_id: String,
    pub sid: String,
}

/// A `SubscriptionKey` by its texts.
pub struct KeyView {
    pub client_id: Seq<char>,
    pub sid: Seq<char>,
}

impl View for SubscriptionKey {
    type V = KeyView;

    open spec fn view(&self) -> KeyView {
        KeyView { client_id: self.client_id@, sid: self.sid@ }
    }
}

impl KeyView {
    /// `self` comes strictly before `other`: by client, then by identifier.
    pub open spec fn before(self, other: KeyView) -> bool {
        ||| text_before(self.client_id, other.client_id)
        ||| self.client_id == other.client_id && text_before(self.sid, other.sid)
    }

    /// How the key is shown in a message.
    pub open spec fn shown(self) -> Seq<char> {
        "SubscriptionKey { client_id: "@ + quoted(self.client_id) + ", sid: "@ + quoted(self.sid)
            + " }"@
    }
}

impl Clone for SubscriptionKey {
    fn clone(&self) -> (res: Self)
        ensures
            res@ == self@,
    {
        SubscriptionKey { client_id: self.client_id.clone(), sid: self.sid.clone() }
    }
}

impl TableKey for SubscriptionKey {
    fn same_key(&self, other: &Self) -> (res: bool) {
        self.client_id == other.client_id && self.sid == other.sid
    }
}

impl SubscriptionKey {
    pub fn new(client_id: &str, sid: &str) -> (res: Self)
        ensures
            res@ == (KeyView { client_id: client_id@, sid: sid@ }),
    {
        SubscriptionKey { client_id: client_id.to_owned(), sid: sid.to_owned() }
    }

    /// Whether the key comes strictly before `other`.
    pub fn is_before(&self, other: &SubscriptionKey) -> (res: bool)
        ensures
            res == self@.before(other@),
    {
        text_less(self.client_id.as_str(), other.client_id.as_str()) || (self.client_id
            == other.client_id && text_less(self.sid.as_str(), other.sid.as_str()))
    }
}

/// A connected client: the number of the channel that leads to it.
#[derive(Debug, Clone, Copy)]
pub struct ClientHandle {
    pub sender: u64,
}

impl View for ClientHandle {
    type V = u64;

    open spec fn view(&self) -> u64 {
        self.sender
    }
}

/// A subscription.
#[derive(Debug)]
pub struct SubscriptionEntry {
    pub subject: Subject,
    /// The name of the queue that the subscription takes part in. The subscriptions of one name
    /// share their messages, whatever their subjects.
    pub queue_group: Option<String>,
    /// After how many messages the subscription ends.
    pub max_msgs: Option<u64>,
    /// How many messages it got.
    pub delivered: u64,
    /// The number of the channel to the client.
    pub sender: u64,
}

/// A `SubscriptionEntry` by its texts.
pub struct EntryView {
    pub subject: Seq<char>,
    pub queue_group: Option<Seq<char>>,
    pub max_msgs: Option<u64>,
    pub delivered: u64,
    pub sender: u64,
}

impl View for SubscriptionEntry {
    type V = EntryView;

    open spec fn view(&self) -> EntryView {
        EntryView {
            subject: self.subject@,
            queue_group: optional_text(self.queue_group),
            max_msgs: self.max_msgs,
            delivered: self.delivered,
            sender: self.sender,
        }
    }
}

impl Clone for SubscriptionEntry {
    fn clone(&self) -> (res: Self)
        ensures
            res@ == self@,
    {
        SubscriptionEntry {
            subject: self.subject.clone(),
            queue_group: copy_optional(&self.queue_group),
            max_msgs: self.max_msgs,
            delivered: self.delivered,
            sender: self.sender,
        }
    }
}

/// Why a request is refused.
#[derive(Debug)]
pub enum ServerError {
    ClientNotFound(String),
    SubscriptionNotFound(SubscriptionKey),
    InvalidSubject(SubjectError),
    PayloadTooLarge { size: usize, max: usize },
}

/// A `ServerError` by its texts.
pub enum ServerErrorView {
    ClientNotFound(Seq<char>),
    SubscriptionNotFound(KeyView),
    InvalidSubject(SubjectErrorView),
    PayloadTooLarge { size: nat, max: nat },
}

impl View for ServerError {
    type V = ServerErrorView;

    open spec fn view(&self) -> ServerErrorView {
        match self {
            ServerError::ClientNotFound(id) => ServerErrorView::ClientNotFound(id@),
            ServerError::SubscriptionNotFound(key) => ServerErrorView::SubscriptionNotFound(key@),
            ServerError::InvalidSubject(error) => ServerErrorView::InvalidSubject(error@),
            ServerError::PayloadTooLarge { size, max } => ServerErrorView::PayloadTooLarge {
                size: *size as nat,
                max: *max as nat,
            },
        }
    }
}

impl ServerErrorView {
    /// The words in which the error is reported.
    pub open spec fn message(self) -> Seq<char> {
        match self {
            ServerErrorView::ClientNotFound(id) => "客户端不存在: "@ + id,
            ServerErrorView::SubscriptionNotFound(key) => "订阅不存在: "@ + key.shown(),
            ServerErrorView::InvalidSubject(error) => "科目解析失败: "@ + error.message(),
            ServerErrorView::PayloadTooLarge { size, max } => "消息负载超过限制: "@ + decimal(size)
                + " > "@ + decimal(max),
        }
    }
}

impl ServerError {
    /// The words in which the error is reported.
    pub fn message(&self) -> (res: String)
        ensures
            res@ == self@.message(),
    {
        match self {
            ServerError::ClientNotFound(id) => "客户端不存在: ".to_owned().concat(id.as_str()),
            ServerError::SubscriptionNotFound(key) => {
                let shown = "SubscriptionKey { client_id: ".to_owned().concat(
                    quoted_text(key.client_id.as_str()).as_str(),
                ).concat(", sid: ").concat(quoted_text(key.sid.as_str()).as_str()).concat(" }");
                "订阅不存在: ".to_owned().concat(shown.as_str())
            },
            ServerError::InvalidSubject(error) => "科目解析失败: ".to_owned().concat(
                error.message().as_str(),
            ),
            ServerError::PayloadTooLarge { size, max } => "消息负载超过限制: ".to_owned().concat(
                decimal_text(*size as u64).as_str(),
            ).concat(" > ").concat(decimal_text(*max as u64).as_str()),
        }
    }
}

impl vstd::std_specs::convert::FromSpecImpl<SubjectError> for ServerError {
    open spec fn obeys_from_spec() -> bool {
        true
    }

    open spec fn from_spec(error: SubjectError) -> Self {
        ServerError::InvalidSubject(error)
    }
}

impl From<SubjectError> for ServerError {
    fn from(error: SubjectError) -> (res: Self) {
        ServerError::InvalidSubject(error)
    }
}

/// What a server is set up with.
#[derive(Debug, Clone, Copy)]
pub struct ServerConfig {
    pub port: u16,
    pub max_payload: usize,
}

impl Default for ServerConfig {
    fn default() -> (res: Self)
        ensures
            res.port == 4222,
            res.max_payload == 1024 * 1024,
    {
        ServerConfig { port: 4222, max_payload: 1024 * 1024 }
    }
}

/// All that a server knows.
pub struct ServerState {
    config: ServerConfig,
    server_id: String,
    clients: Table<String, ClientHandle>,
    subscriptions: Table<SubscriptionKey, SubscriptionEntry>,
    queue_counters: Table<QueueKey, usize>,
}

/// A `ServerState` as maps: the channels of the clients, the subscriptions, and the turns of the
/// queues. A queue has a turn for each of the ways in which messages see it.
#[verifier::ext_equal]
pub struct ServerView {
    pub config: ServerConfig,
    pub server_id: Seq<char>,
    pub clients: Map<Seq<char>, u64>,
    pub subscriptions: Map<KeyView, EntryView>,
    pub queue_counters: Map<QueueView, usize>,
}

impl View for ServerState {
    type V = ServerView;

    closed spec fn view(&self) -> ServerView {
        ServerView {
            config: self.config,
            server_id: self.server_id@,
            clients: self.clients@,
            subscriptions: self.subscriptions@,
            queue_counters: self.queue_counters@,
        }
    }
}

/// Some subscription to `subject` takes part in the queue `queue`.
pub open spec fn subject_live(
    subscriptions: Map<KeyView, EntryView>,
    subject: Seq<char>,
    queue: Seq<char>,
) -> bool {
    exists|k: KeyView|
        #[trigger]
        subscriptions.contains_key(k) && subscriptions[k].subject == subject
            && subscriptions[k].queue_group == Some(queue)
}

/// The queue has a subscription to each of the subjects of `q`.
pub open spec fn queue_live(subscriptions: Map<KeyView, EntryView>, q: QueueView) -> bool {
    forall|subject: Seq<char>| #[trigger]
        q.subjects.contains(subject) ==> subject_live(subscriptions, subject, q.queue)
}

/// To some subject of `q` the queue has a subscription in `before`, and none in `after`.
pub open spec fn loses_subject(
    before: Map<KeyView, EntryView>,
    after: Map<KeyView, EntryView>,
    q: QueueView,
) -> bool {
    exists|subject: Seq<char>|
        #[trigger]
        q.subjects.contains(subject) && subject_live(before, subject, q.queue) && !subject_live(
            after,
            subject,
            q.queue,
        )
}

impl ServerView {
    /// `self` without the turns that are kept for the subject `subject` of the queue `queue`,
    /// alone or with others, unless the queue has a subscription to it.
    pub open spec fn pruned(self, subject: Seq<char>, queue: Seq<char>) -> ServerView {
        if subject_live(self.subscriptions, subject, queue) {
            self
        } else {
            ServerView {
                queue_counters: self.queue_counters.remove_keys(
                    Set::new(|q: QueueView| q.queue == queue && q.subjects.contains(subject)),
                ),
                ..self
            }
        }
    }

    /// `self` with the client `client_id` reached by the channel `sender`.
    pub open spec fn registered(self, client_id: Seq<char>, sender: u64) -> ServerView {
        ServerView { clients: self.clients.insert(client_id, sender), ..self }
    }

    /// `self` without the client `client_id`: without its subscriptions, and without the turns that
    /// are kept for a subject of which a queue thereby loses the last one.
    pub open spec fn unregistered(self, client_id: Seq<char>) -> ServerView {
        let kept = self.subscriptions.remove_keys(
            Set::new(|k: KeyView| k.client_id == client_id),
        );
        ServerView {
            clients: self.clients.remove(client_id),
            subscriptions: kept,
            queue_counters: self.queue_counters.remove_keys(
                Set::new(|q: QueueView| loses_subject(self.subscriptions, kept, q)),
            ),
            ..self
        }
    }

    /// The answer to a request to subscribe, and what becomes of `self`.
    pub open spec fn subscribed(
        self,
        client_id: Seq<char>,
        sid: Seq<char>,
        subject: Seq<char>,
        queue_group: Option<Seq<char>>,
    ) -> (ServerView, Result<(), ServerErrorView>) {
        if let Some(error) = subject_error(subject) {
            (self, Err(ServerErrorView::InvalidSubject(error)))
        } else if !self.clients.contains_key(client_id) {
            (self, Err(ServerErrorView::ClientNotFound(client_id)))
        } else {
            let entry = EntryView {
                subject,
                queue_group,
                max_msgs: None,
                delivered: 0,
                sender: self.clients[client_id],
            };
            (
                ServerView {
                    subscriptions: self.subscriptions.insert(KeyView { client_id, sid }, entry),
                    ..self
                },
                Ok(()),
            )
        }
    }

    /// The answer to a request to end a subscription after `max_msgs` messages, and what becomes
    /// of `self`.
    pub open spec fn limited(self, key: KeyView, max_msgs: Option<u64>) -> (
        ServerView,
        Result<(), ServerErrorView>,
    ) {
        if self.subscriptions.contains_key(key) {
            let entry = EntryView { max_msgs, ..self.subscriptions[key] };
            (
                ServerView { subscriptions: self.subscriptions.insert(key, entry), ..self },
                Ok(()),
            )
        } else {
            (self, Err(ServerErrorView::SubscriptionNotFound(key)))
        }
    }

    /// `self` without the subscription `key`, which is there, and without the turns that are kept
    /// for its subject if its queue thereby loses the last one.
    pub open spec fn dropped(self, key: KeyView) -> ServerView {
        let less = ServerView { subscriptions: self.subscriptions.remove(key), ..self };
        match self.subscriptions[key].queue_group {
            Some(queue) => less.pruned(self.subscriptions[key].subject, queue),
            None => less,
        }
    }

    /// The answer to a request to end a subscription, and what becomes of `self`.
    pub open spec fn unsubscribed(self, key: KeyView) -> (ServerView, Result<(), ServerErrorView>) {
        if self.subscriptions.contains_key(key) {
            (self.dropped(key), Ok(()))
        } else {
            (self, Err(ServerErrorView::SubscriptionNotFound(key)))
        }
    }
}

/// Some subscription is `entry`.
spec fn has_entry(subscriptions: Map<KeyView, EntryView>, entry: EntryView) -> bool {
    exists|k: KeyView| #[trigger]
        subscriptions.contains_key(k) && subscriptions[k] == entry
}

/// The turn `q` is kept for the subject and the queue of `entry`, to which `subscriptions` have no
/// subscription.
spec fn is_last(
    subscriptions: Map<KeyView, EntryView>,
    entry: EntryView,
    q: QueueView,
) -> bool {
    &&& entry.queue_group == Some(q.queue)
    &&& q.subjects.contains(entry.subject)
    &&& !subject_live(subscriptions, entry.subject, q.queue)
}

/// A plain answer by the view of its error.
pub open spec fn unit_result(res: Result<(), ServerError>) -> Result<(), ServerErrorView> {
    match res {
        Ok(_) => Ok(()),
        Err(error) => Err(error@),
    }
}

impl ServerState {
    /// A server without clients.
    pub fn new(server_id: String, config: ServerConfig) -> (res: Self)
        ensures
            res@ == (ServerView {
                config,
                server_id: server_id@,
                clients: Map::empty(),
                subscriptions: Map::empty(),
                queue_counters: Map::empty(),
            }),
    {
        ServerState {
            config,
            server_id,
            clients: Table::new(),
            subscriptions: Table::new(),
            queue_counters: Table::new(),
        }
    }

    /// The message in which the server announces itself, as of now.
    pub fn info(&self) -> (res: ServerMessage)
        ensures
            res matches ServerMessage::Info(info) && info@ == info_of(
                self@.server_id,
                self@.config.port,
                self@.config.max_payload,
                info.now,
            ),
    {
        ServerMessage::Info(
            info_message(self.server_id.clone(), self.config.port, self.config.max_payload),
        )
    }

    /// The message in which the server announces itself at the time `now`.
    pub fn info_at(&self, now: NaiveDateTime) -> (res: ServerMessage)
        ensures
            res@ == MessageView::Info(
                info_of(self@.server_id, self@.config.port, self@.config.max_payload, now),
            ),
    {
        ServerMessage::Info(
            info_message_at(self.server_id.clone(), self.config.port, self.config.max_payload, now),
        )
    }

    pub fn server_id(&self) -> (res: &str)
        ensures
            res@ == self@.server_id,
    {
        self.server_id.as_str()
    }

    /// Adds a client, or gives one that is there another channel.
    pub fn register_client(&mut self, client_id: String, sender: u64)
        ensures
            final(self)@ == old(self)@.registered(client_id@, sender),
    {
        self.clients.insert(client_id, ClientHandle { sender });
    }

    /// Whether some subscription to `subject` takes part in the queue `queue`.
    fn subject_exists(&self, subject: &str, queue: &str) -> (res: bool)
        ensures
            res == subject_live(self@.subscriptions, subject@, queue@),
    {
        let n = self.subscriptions.len();
        let mut i: usize = 0;
        while i < n
            invariant
                n == self.subscriptions.spec_len(),
                i <= n,
                forall|j: int|
                    0 <= j < i ==> {
                        let entry = self.subscriptions@[#[trigger] self.subscriptions.key_view(j)];
                        entry.subject != subject@ || entry.queue_group != Some(queue@)
                    },
            decreases n - i,
        {
            let (key, entry) = self.subscriptions.entry(i);
            if let Some(name) = &entry.queue_group {
                if same_text(name.as_str(), queue) && same_text(entry.subject.raw(), subject) {
                    proof {
                        assert(self.subscriptions@.contains_key(key@));
                    }
                    return true;
                }
            }
            i += 1;
        }
        false
    }

    /// Whether the queue has a subscription to each of the subjects of `queue_key`.
    fn queue_exists(&self, queue_key: &QueueKey) -> (res: bool)
        ensures
            res == queue_live(self@.subscriptions, queue_key@),
    {
        let subjects = queue_key.subjects();
        let mut i: usize = 0;
        while i < subjects.len()
            invariant
                text_set(subjects@) == queue_key@.subjects,
                i <= subjects.len(),
                forall|j: int|
                    0 <= j < i ==> subject_live(
                        self@.subscriptions,
                        (#[trigger] subjects@[j])@,
                        queue_key@.queue,
                    ),
            decreases subjects.len() - i,
        {
            if !self.subject_exists(subjects[i].as_str(), queue_key.queue()) {
                proof {
                    assert(queue_key@.subjects.contains(subjects@[i as int]@));
                }
                return false;
            }
            i += 1;
        }
        true
    }

    /// Forgets the turns that are kept for a subject of a queue that has no subscription to it.
    fn prune_queue_key(&mut self, subject: &str, queue: &str)
        ensures
            final(self)@ == old(self)@.pruned(subject@, queue@),
    {
        if self.subject_exists(subject, queue) {
            return;
        }
        let ghost before = self@;
        let mut i: usize = 0;
        while i < self.queue_counters.len()
            invariant
                i <= self.queue_counters.spec_len(),
                self@.config == before.config,
                self@.server_id == before.server_id,
                self@.clients == before.clients,
                self@.subscriptions == before.subscriptions,
                forall|q: QueueView| #[trigger]
                    self@.queue_counters.contains_key(q) ==> before.queue_counters.contains_key(q)
                        && self@.queue_counters[q] == before.queue_counters[q],
                forall|q: QueueView|
                    #[trigger]
                    before.queue_counters.contains_key(q) && !(q.queue == queue@
                        && q.subjects.contains(subject@)) ==> self@.queue_counters.contains_key(q),
                forall|j: int|
                    0 <= j < i ==> {
                        let q = #[trigger] self.queue_counters.key_view(j);
                        !(q.queue == queue@ && q.subjects.contains(subject@))
                    },
            decreases self.queue_counters.spec_len() - i,
        {
            let concerned: bool = {
                let (key, _) = self.queue_counters.entry(i);
                same_text(key.queue(), queue) && key.has_subject(subject)
            };
            if concerned {
                let ghost was = self@.queue_counters;
                let (key, _) = self.queue_counters.remove_at(i);
                proof {
                    assert(self@.queue_counters == was.remove(key@));
                    assert forall|q: QueueView| #[trigger]
                        self@.queue_counters.contains_key(q) implies before.queue_counters.contains_key(
                        q,
                    ) && self@.queue_counters[q] == before.queue_counters[q] by {
                        assert(was.contains_key(q));
                    }
                }
            } else {
                i += 1;
            }
        }
        proof {
            let target = before.pruned(subject@, queue@);
            assert(self@.queue_counters =~= target.queue_counters);
            assert(self@ =~= target);
        }
    }

    /// Removes a client with its subscriptions.
    pub fn unregister_client(&mut self, client_id: &str)
        ensures
            final(self)@ == old(self)@.unregistered(client_id@),
    {
        let ghost before = self@;
        let ghost kept = before.subscriptions.remove_keys(
            Set::new(|k: KeyView| k.client_id == client_id@),
        );
        let name = client_id.to_owned();
        self.clients.remove(&name);
        let mut removed: Vec<SubscriptionEntry> = Vec::new();
        let mut i: usize = 0;
        while i < self.subscriptions.len()
            invariant
                name@ == client_id@,
                i <= self.subscriptions.spec_len(),
                self@.config == before.config,
                self@.server_id == before.server_id,
                self@.clients == before.clients.remove(client_id@),
                self@.queue_counters == before.queue_counters,
                forall|k: KeyView| #[trigger]
                    self@.subscriptions.contains_key(k) ==> before.subscriptions.contains_key(k)
                        && self@.subscriptions[k] == before.subscriptions[k],
                forall|k: KeyView|
                    #[trigger]
                    before.subscriptions.contains_key(k) && k.client_id != client_id@
                        ==> self@.subscriptions.contains_key(k),
                forall|j: int|
                    0 <= j < i ==> (#[trigger] self.subscriptions.key_view(j)).client_id
                        != client_id@,
                forall|k: KeyView| #[trigger]
                    before.subscriptions.contains_key(k) && !self@.subscriptions.contains_key(k)
                        ==> exists|j: int|
                        0 <= j < removed@.len() && (#[trigger] removed@[j])@
                            == before.subscriptions[k],
                forall|j: int|
                    0 <= j < removed@.len() ==> has_entry(
                        before.subscriptions,
                        (#[trigger] removed@[j])@,
                    ),
            decreases self.subscriptions.spec_len() - i,
        {
            let owned: bool = {
                let (key, _) = self.subscriptions.entry(i);
                key.client_id == name
            };
            if owned {
                let ghost was = self@.subscriptions;
                let ghost gone = removed@;
                let (key, entry) = self.subscriptions.remove_at(i);
                removed.push(entry);
                proof {
                    assert(before.subscriptions.contains_key(key@));
                    assert(before.subscriptions[key@] == entry@);
                    assert(removed@[gone.len() as int] == entry);
                    assert forall|k: KeyView| #[trigger]
                        before.subscriptions.contains_key(k) && !self@.subscriptions.contains_key(
                            k,
                        ) implies exists|j: int|
                        0 <= j < removed@.len() && (#[trigger] removed@[j])@
                            == before.subscriptions[k] by {
                        if k != key@ {
                            assert(!was.contains_key(k));
                            let j = choose|j: int|
                                0 <= j < gone.len() && (#[trigger] gone[j])@
                                    == before.subscriptions[k];
                            assert(removed@[j] == gone[j]);
                        }
                    }
                    assert forall|j: int| 0 <= j < removed@.len() implies has_entry(
                        before.subscriptions,
                        (#[trigger] removed@[j])@,
                    ) by {
                        if j < gone.len() {
                            assert(removed@[j] == gone[j]);
                        }
                    }
                }
            } else {
                i += 1;
            }
        }
        proof {
            assert forall|k: KeyView| #[trigger]
                self@.subscriptions.contains_key(k) implies k.client_id != client_id@ by {}
            assert(self@.subscriptions =~= kept);
        }
        let ghost middle = self@;
        let mut n: usize = 0;
        while n < removed.len()
            invariant
                n <= removed@.len(),
                self@.config == middle.config,
                self@.server_id == middle.server_id,
                self@.clients == middle.clients,
                self@.subscriptions == middle.subscriptions,
                forall|q: QueueView| #[trigger]
                    self@.queue_counters.contains_key(q) <==> middle.queue_counters.contains_key(q)
                        && !(exists|j: int|
                        0 <= j < n && is_last(middle.subscriptions, (#[trigger] removed@[j])@, q)),
                forall|q: QueueView| #[trigger]
                    self@.queue_counters.contains_key(q) ==> self@.queue_counters[q]
                        == middle.queue_counters[q],
            decreases removed.len() - n,
        {
            let ghost was = self@.queue_counters;
            let entry = &removed[n];
            if let Some(queue) = &entry.queue_group {
                self.prune_queue_key(entry.subject.raw(), queue.as_str());
            }
            proof {
                assert forall|q: QueueView| #[trigger]
                    self@.queue_counters.contains_key(q) <==> middle.queue_counters.contains_key(q)
                        && !(exists|j: int|
                        0 <= j < n + 1 && is_last(
                            middle.subscriptions,
                            (#[trigger] removed@[j])@,
                            q,
                        )) by {
                    if is_last(middle.subscriptions, removed@[n as int]@, q) {
                        assert(!self@.queue_counters.contains_key(q));
                    } else {
                        assert(self@.queue_counters.contains_key(q) == was.contains_key(q));
                    }
                }
            }
            n += 1;
        }
        proof {
            let target = before.unregistered(client_id@);
            assert forall|q: QueueView|
                loses_subject(before.subscriptions, kept, q) <==> exists|j: int|
                    0 <= j < removed@.len() && is_last(kept, (#[trigger] removed@[j])@, q) by {
                if loses_subject(before.subscriptions, kept, q) {
                    let subject = choose|subject: Seq<char>|
                        #[trigger]
                        q.subjects.contains(subject) && subject_live(
                            before.subscriptions,
                            subject,
                            q.queue,
                        ) && !subject_live(kept, subject, q.queue);
                    let k = choose|k: KeyView| #[trigger]
                        before.subscriptions.contains_key(k) && before.subscriptions[k].subject
                            == subject && before.subscriptions[k].queue_group == Some(q.queue);
                    assert(!kept.contains_key(k));
                    let j = choose|j: int|
                        0 <= j < removed@.len() && (#[trigger] removed@[j])@
                            == before.subscriptions[k];
                    assert(is_last(kept, removed@[j]@, q));
                }
                if exists|j: int|
                    0 <= j < removed@.len() && is_last(kept, (#[trigger] removed@[j])@, q) {
                    let j = choose|j: int|
                        0 <= j < removed@.len() && is_last(kept, (#[trigger] removed@[j])@, q);
                    let k = choose|k: KeyView| #[trigger]
                        before.subscriptions.contains_key(k) && before.subscriptions[k]
                            == removed@[j]@;
                    assert(subject_live(before.subscriptions, removed@[j]@.subject, q.queue)) by {
                        assert(before.subscriptions.contains_key(k));
                    }
                    assert(q.subjects.contains(removed@[j]@.subject));
                }
            }
            assert(self@.queue_counters =~= target.queue_counters);
            assert(self@ =~= target);
        }
    }

    /// Adds a subscription of a client, in the place of one with the same identifier.
    pub fn add_subscription(
        &mut self,
        client_id: &str,
        sid: &str,
        subject: &str,
        queue_group: Option<String>,
    ) -> (res: Result<(), ServerError>)
        ensures
            (final(self)@, unit_result(res)) == old(self)@.subscribed(
                client_id@,
                sid@,
                subject@,
                optional_text(queue_group),
            ),
    {
        let subject = match Subject::parse(subject) {
            Ok(subject) => subject,
            Err(error) => {
                return Err(ServerError::from(error));
            },
        };
        let name = client_id.to_owned();
        let sender: u64 = match self.clients.get(&name) {
            Some(handle) => handle.sender,
            None => {
                return Err(ServerError::ClientNotFound(name));
            },
        };
        let key = SubscriptionKey::new(client_id, sid);
        self.subscriptions.insert(
            key,
            SubscriptionEntry { subject, queue_group, max_msgs: None, delivered: 0, sender },
        );
        Ok(())
    }

    /// Sets after how many messages a subscription ends.
    pub fn update_subscription_limit(
        &mut self,
        client_id: &str,
        sid: &str,
        max_msgs: Option<u64>,
    ) -> (res: Result<(), ServerError>)
        ensures
            (final(self)@, unit_result(res)) == old(self)@.limited(
                KeyView { client_id: client_id@, sid: sid@ },
                max_msgs,
            ),
    {
        let key = SubscriptionKey::new(client_id, sid);
        let changed: Option<SubscriptionEntry> = match self.subscriptions.get(&key) {
            Some(sub) => Some(SubscriptionEntry { max_msgs, ..sub.clone() }),
            None => None,
        };
        match changed {
            Some(entry) => {
                self.subscriptions.insert(key, entry);
                Ok(())
            },
            None => Err(ServerError::SubscriptionNotFound(key)),
        }
    }

    /// Ends a subscription.
    pub fn remove_subscription(&mut self, client_id: &str, sid: &str) -> (res: Result<
        (),
        ServerError,
    >)
        ensures
            (final(self)@, unit_result(res)) == old(self)@.unsubscribed(
                KeyView { client_id: client_id@, sid: sid@ },
            ),
    {
        let key = SubscriptionKey::new(client_id, sid);
        match self.subscriptions.remove(&key) {
            Some(entry) => {
                if let Some(queue) = &entry.queue_group {
                    self.prune_queue_key(entry.subject.raw(), queue.as_str());
                }
                Ok(())
            },
            None => {
                proof {
                    assert(self@ =~= old(self)@);
                }
                Err(ServerError::SubscriptionNotFound(key))
            },
        }
    }
}

} // verus!
