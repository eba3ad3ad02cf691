use bytes::Bytes;
use lfu::{FrequencyList, FrequencyNode, Item, LFU};

fn assert_structure(c: &LFU, keys: &[&str]) {
    let counts = c.frequencies();
    assert_eq!(counts[0], 0);
    assert!(c.keys_with(0).is_empty());
    for w in counts.windows(2) {
        assert!(w[0] < w[1]);
    }
    for f in &counts[1..] {
        assert!(!c.keys_with(*f).is_empty());
    }
    let mut seen = 0;
    for f in &counts {
        for k in c.keys_with(*f) {
            assert!(c.contains(&k));
            assert_eq!(c.get_frequency(&k), *f as usize);
            seen += 1;
        }
    }
    assert_eq!(seen, c.len());
    let mut present = 0;
    for k in keys {
        if c.contains(k) {
            present += 1;
            let f = c.get_frequency(k);
            let holders = counts
                .iter()
                .filter(|g| c.keys_with(**g).iter().any(|m| m == k))
                .count();
            assert_eq!(holders, 1);
            assert!(c.keys_with(f as u32).iter().any(|m| m == k));
        } else {
            assert_eq!(c.get_frequency(k), 0);
        }
    }
    assert_eq!(present, c.len());
    assert!(c.size_bytes() <= c.max_bytes());
}

#[test]
fn promotion_creates_and_destroys_buckets() {
    let mut c = LFU::new().max_size(1000);
    assert_eq!(c.frequencies(), vec![0]);
    let _ = c.insert("a".to_string(), Bytes::from("x"));
    assert_eq!(c.frequencies(), vec![0, 1]);
    assert_eq!(c.keys_with(1), vec!["a".to_string()]);
    assert_eq!(c.get("a"), Some(&Bytes::from("x")));
    assert_eq!(c.frequencies(), vec![0, 2]);
    assert!(c.keys_with(1).is_empty());
    assert_eq!(c.keys_with(2), vec!["a".to_string()]);
}

#[test]
fn promotion_joins_the_existing_successor() {
    let mut c = LFU::new();
    let _ = c.insert("a".to_string(), Bytes::from("x"));
    let _ = c.insert("b".to_string(), Bytes::from("y"));
    c.get("a");
    assert_eq!(c.frequencies(), vec![0, 1, 2]);
    c.get("b");
    assert_eq!(c.frequencies(), vec![0, 2]);
    assert_eq!(c.keys_with(2), vec!["a".to_string(), "b".to_string()]);
}

#[test]
fn promotion_splices_between_distant_buckets() {
    let mut c = LFU::new();
    let _ = c.insert("a".to_string(), Bytes::from("x"));
    c.get("a");
    c.get("a");
    c.get("a");
    let _ = c.insert("b".to_string(), Bytes::from("y"));
    assert_eq!(c.frequencies(), vec![0, 1, 4]);
    c.get("b");
    assert_eq!(c.frequencies(), vec![0, 2, 4]);
    let _ = c.insert("d".to_string(), Bytes::from("z"));
    assert_eq!(c.frequencies(), vec![0, 1, 2, 4]);
    let keys = ["a", "b", "d"];
    assert_structure(&c, &keys);
}

#[test]
fn update_returns_the_key_to_its_own_bucket() {
    let mut c = LFU::new();
    let _ = c.insert("a".to_string(), Bytes::from("x"));
    let _ = c.insert("b".to_string(), Bytes::from("y"));
    c.get("a");
    c.get("a");
    let _ = c.insert("c".to_string(), Bytes::from("z"));
    c.get("c");
    assert_eq!(c.frequencies(), vec![0, 1, 2, 3]);
    let _ = c.insert("c".to_string(), Bytes::from("zz"));
    assert_eq!(c.frequencies(), vec![0, 1, 2, 3]);
    assert_eq!(c.keys_with(2), vec!["c".to_string()]);
    assert_eq!(c.size_bytes(), 4);
}

#[test]
fn structure_holds_through_a_mixed_run() {
    let keys = ["a", "b", "c", "d", "e", "f"];
    let mut c = LFU::new().max_size(7);
    assert_structure(&c, &keys);
    let mut step: usize = 0;
    while step < 200 {
        let k = keys[(step * 7 + step / 3) % keys.len()];
        if step % 3 == 0 {
            let size = 1 + (step / 3) % 4;
            let payload = Bytes::from(vec![b'x'; size]);
            let had = c.contains(k);
            let before = c.get_frequency(k);
            assert!(c.insert(k.to_string(), payload.clone()).is_ok());
            assert_eq!(c.get_frequency(k), if had { before } else { 1 });
            assert_eq!(c.get(k), Some(&payload));
        } else if step % 11 == 0 {
            let _ = c.remove(k);
            assert!(!c.contains(k));
        } else {
            let before = c.get_frequency(k);
            let found = c.get(k).is_some();
            assert_eq!(found, before > 0);
            assert_eq!(c.get_frequency(k), if found { before + 1 } else { 0 });
        }
        assert_structure(&c, &keys);
        step += 1;
    }
}

#[test]
fn node_keeps_its_keys_in_order() {
    let mut node = FrequencyNode::new(7);
    assert_eq!(node.value, 7);
    assert_eq!(node.frequency(), 7);
    assert_eq!(node.len(), 0);
    node.add("a".to_string());
    node.add("b".to_string());
    node.add("c".to_string());
    assert_eq!(node.len(), 3);
    assert_eq!(node.first(), "a".to_string());
    assert_eq!(node.position(&"b".to_string()), Some(1));
    assert_eq!(node.position(&"z".to_string()), None);
    assert!(!node.remove(&"b".to_string()));
    assert_eq!(node.keys(), vec!["a".to_string(), "c".to_string()]);
    assert!(!node.remove(&"z".to_string()));
    assert_eq!(node.len(), 2);
    assert!(!node.remove(&"a".to_string()));
    assert!(node.remove(&"c".to_string()));
    assert_eq!(node.len(), 0);
}

#[test]
fn list_splices_and_unlinks() {
    let mut list = FrequencyList::new();
    assert_eq!(list.len(), 1);
    assert_eq!(list.frequency_at(0), 0);
    assert_eq!(list.insert_after(0, 5), 1);
    assert_eq!(list.insert_after(0, 2), 1);
    assert_eq!(list.len(), 3);
    assert_eq!(list.frequency_at(1), 2);
    assert_eq!(list.frequency_at(2), 5);
    assert_eq!(list.successor_or_create(1, 3), 2);
    assert_eq!(list.len(), 4);
    assert_eq!(list.successor_or_create(1, 3), 2);
    assert_eq!(list.len(), 4);
    assert_eq!(list.find(5), Some(3));
    assert_eq!(list.find(4), None);
    assert_eq!(list.predecessor(5), 2);
    assert_eq!(list.predecessor(1), 0);
    assert_eq!(list.predecessor(9), 3);
    list.unlink(2);
    assert_eq!(list.len(), 3);
    assert_eq!(list.find(3), None);
    assert_eq!(list.find(5), Some(2));
    list.add_key(1, "k".to_string());
    assert_eq!(list.keys_at(1), vec!["k".to_string()]);
    assert!(!list.remove_key(1, &"q".to_string()));
    assert!(list.remove_key(1, &"k".to_string()));
    assert!(list.keys_at(1).is_empty());
}

#[test]
fn list_places_promotes_and_detaches() {
    let mut list = FrequencyList::new();
    assert_eq!(list.lowest(), None);
    list.place("a".to_string(), 1);
    list.place("b".to_string(), 1);
    list.place("c".to_string(), 3);
    assert_eq!(list.len(), 3);
    assert_eq!(list.lowest(), Some(("a".to_string(), 1)));
    list.promote(&"a".to_string(), 1);
    assert_eq!(list.len(), 4);
    assert_eq!(list.frequency_at(2), 2);
    assert_eq!(list.keys_at(2), vec!["a".to_string()]);
    assert_eq!(list.lowest(), Some(("b".to_string(), 1)));
    list.promote(&"a".to_string(), 2);
    assert_eq!(list.len(), 3);
    assert_eq!(list.keys_at(2), vec!["c".to_string(), "a".to_string()]);
    list.detach(&"b".to_string(), 1);
    assert_eq!(list.len(), 2);
    assert_eq!(list.lowest(), Some(("c".to_string(), 3)));
    list.detach(&"c".to_string(), 3);
    list.detach(&"a".to_string(), 3);
    assert_eq!(list.len(), 1);
    assert_eq!(list.lowest(), None);
}

#[test]
fn item_records_the_payload_size() {
    let item = Item::new("k".to_string(), Bytes::from("abcde"), 1);
    assert_eq!(item.key, "k".to_string());
    assert_eq!(item.data, Bytes::from("abcde"));
    assert_eq!(item.size, 5);
    assert_eq!(item.parent, 1);
    let empty = Item::new("e".to_string(), Bytes::new(), 4);
    assert_eq!(empty.size, 0);
    assert_eq!(empty.parent, 4);
}
