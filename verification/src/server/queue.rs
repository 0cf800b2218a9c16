//! What a turn of a queue is kept for.
use vstd::prelude::*;

use crate::subjects::Subject;
use crate::table::TableKey;
use crate::text::{same_text, text_set};

verus! {

/// A queue as one kind of message sees it: the name of the queue, and those subjects of its
/// subscriptions that cover the message. Messages that are for the same subscriptions of a queue
/// see it in the same way.
#[derive(Debug)]
pub struct QueueKey {
    queue: String,
    subjects: Vec<String>,
}

/// A `QueueKey` by its texts; the order of the subjects does not count.
#[verifier::ext_equal]
pub struct QueueView {
    pub queue: Seq<char>,
    pub subjects: Set<Seq<char>>,
}

impl View for QueueKey {
    type V = QueueView;

    closed spec fn view(&self) -> QueueView {
        QueueView { queue: self.queue@, subjects: text_set(self.subjects@) }
    }
}

/// Whether `text` is one of `parts`.
fn holds_text(parts: &Vec<String>, text: &str) -> (res: bool)
    ensures
        res == text_set(parts@).contains(text@),
{
    let mut i: usize = 0;
    while i < parts.len()
        invariant
            i <= parts.len(),
            forall|j: int| 0 <= j < i ==> (#[trigger] parts@[j])@ != text@,
        decreases parts.len() - i,
    {
        if same_text(parts[i].as_str(), text) {
            return true;
        }
        i += 1;
    }
    false
}

/// Whether each of `inner` is one of `outer`.
fn holds_all(outer: &Vec<String>, inner: &Vec<String>) -> (res: bool)
    ensures
        res == text_set(inner@).subset_of(text_set(outer@)),
{
    let mut i: usize = 0;
    while i < inner.len()
        invariant
            i <= inner.len(),
            forall|j: int|
                0 <= j < i ==> text_set(outer@).contains((#[trigger] inner@[j])@),
        decreases inner.len() - i,
    {
        if !holds_text(outer, inner[i].as_str()) {
            proof {
                assert(text_set(inner@).contains(inner@[i as int]@));
            }
            return false;
        }
        i += 1;
    }
    true
}

impl Clone for QueueKey {
    fn clone(&self) -> (res: Self)
        ensures
            res@ == self@,
    {
        let mut subjects: Vec<String> = Vec::new();
        let mut i: usize = 0;
        while i < self.subjects.len()
            invariant
                i <= self.subjects.len(),
                subjects.len() == i,
                forall|j: int| 0 <= j < i ==> (#[trigger] subjects@[j])@ == self.subjects@[j]@,
            decreases self.subjects.len() - i,
        {
            subjects.push(self.subjects[i].clone());
            i += 1;
        }
        let res = QueueKey { queue: self.queue.clone(), subjects };
        proof {
            assert forall|x: Seq<char>| text_set(self.subjects@).contains(x) implies text_set(
                subjects@,
            ).contains(x) by {
                let j = choose|j: int|
                    0 <= j < self.subjects@.len() && (#[trigger] self.subjects@[j])@ == x;
                assert(subjects@[j]@ == x);
            }
            assert(res@ =~= self@);
        }
        res
    }
}

impl TableKey for QueueKey {
    fn same_key(&self, other: &Self) -> (res: bool) {
        let res = same_text(self.queue.as_str(), other.queue.as_str()) && holds_all(
            &other.subjects,
            &self.subjects,
        ) && holds_all(&self.subjects, &other.subjects);
        proof {
            if res {
                assert(self@ =~= other@);
            }
        }
        res
    }
}

impl QueueKey {
    /// The queue `queue` with the one subject `subject`.
    pub fn new(subject: &Subject, queue: &str) -> (res: Self)
        ensures
            res@ == (QueueView { queue: queue@, subjects: set![subject@] }),
    {
        let mut subjects: Vec<String> = Vec::new();
        subjects.push(subject.raw().to_owned());
        let res = QueueKey { queue: queue.to_owned(), subjects };
        proof {
            assert(subjects@[0]@ == subject@);
            assert(res@ =~= (QueueView { queue: queue@, subjects: set![subject@] }));
        }
        res
    }

    /// Adds a subject, if it is not there.
    pub fn add_subject(&mut self, subject: &Subject)
        ensures
            final(self)@ == (QueueView {
                queue: old(self)@.queue,
                subjects: old(self)@.subjects.insert(subject@),
            }),
    {
        let ghost before = self.subjects@;
        if !self.has_subject(subject.raw()) {
            self.subjects.push(subject.raw().to_owned());
            proof {
                let after = self.subjects@;
                assert(after[before.len() as int]@ == subject@);
                assert forall|x: Seq<char>| text_set(before).contains(x) implies text_set(
                    after,
                ).contains(x) by {
                    let j = choose|j: int|
                        0 <= j < before.len() && (#[trigger] before[j])@ == x;
                    assert(after[j]@ == x);
                }
                assert forall|x: Seq<char>| text_set(after).contains(x) implies x == subject@
                    || text_set(before).contains(x) by {
                    let j = choose|j: int| 0 <= j < after.len() && (#[trigger] after[j])@ == x;
                    if j < before.len() {
                        assert(before[j]@ == x);
                    }
                }
            }
        }
        proof {
            assert(self@.subjects =~= text_set(before).insert(subject@));
        }
    }

    /// The name of the queue.
    pub fn queue(&self) -> (res: &str)
        ensures
            res@ == self@.queue,
    {
        self.queue.as_str()
    }

    /// The subjects.
    pub fn subjects(&self) -> (res: &Vec<String>)
        ensures
            text_set(res@) == self@.subjects,
    {
        &self.subjects
    }

    /// Whether `subject` is one of the subjects.
    pub fn has_subject(&self, subject: &str) -> (res: bool)
        ensures
            res == self@.subjects.contains(subject@),
    {
        holds_text(&self.subjects, subject)
    }
}

} // verus!
