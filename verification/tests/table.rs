use silent_nats::server::queue::QueueKey;
use silent_nats::server::ClientHandle;
use silent_nats::subjects::Subject;
use silent_nats::table::{Table, TableKey};

#[test]
fn a_table_holds_one_value_under_a_key() {
    let mut table: Table<String, ClientHandle> = Table::new();
    let key = |s: &str| s.to_string();
    table.insert(key("a"), ClientHandle { sender: 1 });
    table.insert(key("b"), ClientHandle { sender: 2 });
    table.insert(key("a"), ClientHandle { sender: 3 });
    assert_eq!(table.len(), 2);
    assert_eq!(table.get(&key("a")).unwrap().sender, 3);
    assert_eq!(table.entry(1).0, "b");
    assert!(table.get(&key("c")).is_none());
    assert_eq!(table.remove(&key("a")).unwrap().sender, 3);
    assert!(table.remove(&key("a")).is_none());
    assert_eq!(table.remove_at(0).0, "b");
    assert_eq!(table.len(), 0);
}

#[test]
fn the_order_of_subjects_does_not_count_in_a_key() {
    let subject = |s: &str| Subject::parse(s).unwrap();
    let mut a = QueueKey::new(&subject("x"), "q");
    a.add_subject(&subject("y.*"));
    a.add_subject(&subject("x"));
    let mut b = QueueKey::new(&subject("y.*"), "q");
    assert!(!a.same_key(&b) && !b.same_key(&a));
    b.add_subject(&subject("x"));
    assert!(a.same_key(&b) && b.same_key(&a.clone()));
    assert_eq!(a.queue(), "q");
    assert_eq!(a.subjects().len(), 2);
    assert!(a.has_subject("y.*") && !a.has_subject("y"));
    assert!(!a.same_key(&QueueKey::new(&subject("x"), "r")));
}
