use candy_typed::list::CandyTypedList;
use candy_typed::store::{CandyStore, ListCompactionParams};
use candy_typed::CandyError;

fn keys_of(items: &[Result<(String, u32), CandyError>]) -> Vec<String> {
    items
        .iter()
        .map(|r| r.as_ref().unwrap().0.clone())
        .collect()
}

#[test]
fn insertion_order_is_kept() {
    let mut store = CandyStore::new();
    let list: CandyTypedList<String, String, u32> = CandyTypedList::new();
    let l = "l".to_string();
    list.set(&mut store, &l, &"A".to_string(), &1).unwrap();
    list.set(&mut store, &l, &"B".to_string(), &2).unwrap();
    list.set(&mut store, &l, &"C".to_string(), &3).unwrap();
    assert_eq!(keys_of(&list.iter(&store, &l)), vec!["A", "B", "C"]);
    assert_eq!(keys_of(&list.iter_backwards(&store, &l)), vec!["C", "B", "A"]);
    // Overwriting an existing item does not move it.
    assert_eq!(
        list.set(&mut store, &l, &"B".to_string(), &20).unwrap(),
        Some(2)
    );
    assert_eq!(keys_of(&list.iter(&store, &l)), vec!["A", "B", "C"]);
    assert_eq!(
        list.get(&store, &l, &"B".to_string()).unwrap(),
        Some(20)
    );
}

#[test]
fn promotion_moves_to_the_back() {
    let mut store = CandyStore::new();
    let list: CandyTypedList<String, String, u32> = CandyTypedList::new();
    let l = "l".to_string();
    list.set(&mut store, &l, &"A".to_string(), &1).unwrap();
    list.set(&mut store, &l, &"B".to_string(), &2).unwrap();
    list.set(&mut store, &l, &"C".to_string(), &3).unwrap();
    assert_eq!(
        list.set_promoting(&mut store, &l, &"A".to_string(), &10).unwrap(),
        Some(1)
    );
    assert_eq!(keys_of(&list.iter(&store, &l)), vec!["B", "C", "A"]);
    assert_eq!(keys_of(&list.iter_backwards(&store, &l)), vec!["A", "C", "B"]);
    assert_eq!(list.get(&store, &l, &"A".to_string()).unwrap(), Some(10));
}

#[test]
fn replace_is_compare_and_swap() {
    let mut store = CandyStore::new();
    let list: CandyTypedList<String, String, u32> = CandyTypedList::new();
    let l = "l".to_string();
    let item = "i".to_string();
    assert_eq!(
        list.replace(&mut store, &l, &item, &1, None).unwrap(),
        None
    );
    assert!(!list.contains(&store, &l, &item).unwrap());
    list.set(&mut store, &l, &item, &1).unwrap();
    assert_eq!(
        list.replace(&mut store, &l, &item, &2, Some(&9)).unwrap(),
        None
    );
    assert_eq!(list.get(&store, &l, &item).unwrap(), Some(1));
    assert_eq!(
        list.replace(&mut store, &l, &item, &2, Some(&1)).unwrap(),
        Some(1)
    );
    assert_eq!(list.get(&store, &l, &item).unwrap(), Some(2));
}

#[test]
fn get_or_create_appends_at_the_back() {
    let mut store = CandyStore::new();
    let list: CandyTypedList<String, String, u32> = CandyTypedList::new();
    let l = "l".to_string();
    list.set(&mut store, &l, &"A".to_string(), &1).unwrap();
    assert_eq!(
        list.get_or_create(&mut store, &l, &"B".to_string(), &5).unwrap(),
        5
    );
    assert_eq!(
        list.get_or_create(&mut store, &l, &"A".to_string(), &5).unwrap(),
        1
    );
    assert_eq!(keys_of(&list.iter(&store, &l)), vec!["A", "B"]);
}

#[test]
fn pops_and_peeks_work_at_both_ends() {
    let mut store = CandyStore::new();
    let list: CandyTypedList<String, String, u32> = CandyTypedList::new();
    let l = "l".to_string();
    assert_eq!(list.pop_head(&mut store, &l).unwrap(), None);
    assert_eq!(list.peek_tail(&store, &l).unwrap(), None);
    list.set(&mut store, &l, &"A".to_string(), &1).unwrap();
    list.set(&mut store, &l, &"B".to_string(), &2).unwrap();
    list.set(&mut store, &l, &"C".to_string(), &3).unwrap();
    assert_eq!(
        list.peek_head(&store, &l).unwrap(),
        Some(("A".to_string(), 1))
    );
    assert_eq!(
        list.peek_tail(&store, &l).unwrap(),
        Some(("C".to_string(), 3))
    );
    assert_eq!(list.len(&store, &l).unwrap(), 3);
    assert_eq!(
        list.pop_head(&mut store, &l).unwrap(),
        Some(("A".to_string(), 1))
    );
    assert_eq!(
        list.pop_tail(&mut store, &l).unwrap(),
        Some(("C".to_string(), 3))
    );
    assert_eq!(list.len(&store, &l).unwrap(), 1);
}

#[test]
fn lists_with_different_identifiers_are_independent() {
    let mut store = CandyStore::new();
    let list: CandyTypedList<String, String, u32> = CandyTypedList::new();
    list.set(&mut store, &"one".to_string(), &"A".to_string(), &1).unwrap();
    list.set(&mut store, &"two".to_string(), &"A".to_string(), &2).unwrap();
    assert_eq!(
        list.get(&store, &"one".to_string(), &"A".to_string()).unwrap(),
        Some(1)
    );
    assert_eq!(
        list.get(&store, &"two".to_string(), &"A".to_string()).unwrap(),
        Some(2)
    );
    list.remove(&mut store, &"one".to_string(), &"A".to_string()).unwrap();
    assert_eq!(
        list.get(&store, &"two".to_string(), &"A".to_string()).unwrap(),
        Some(2)
    );
}

#[test]
fn discard_deletes_the_whole_list() {
    let mut store = CandyStore::new();
    let list: CandyTypedList<String, String, u32> = CandyTypedList::new();
    let l = "l".to_string();
    assert!(!list.discard(&mut store, &l).unwrap());
    list.set(&mut store, &l, &"A".to_string(), &1).unwrap();
    assert!(list.discard(&mut store, &l).unwrap());
    assert_eq!(list.len(&store, &l).unwrap(), 0);
    assert!(!list.contains(&store, &l, &"A".to_string()).unwrap());
}

#[test]
fn compaction_runs_at_the_threshold() {
    let mut store = CandyStore::new();
    let list: CandyTypedList<String, String, u32> = CandyTypedList::new();
    let l = "l".to_string();
    let params = ListCompactionParams { min_holes: 2 };
    for (k, v) in [("A", 1u32), ("B", 2), ("C", 3)] {
        list.set(&mut store, &l, &k.to_string(), &v).unwrap();
    }
    assert!(!list.compact_if_needed(&mut store, &l, params).unwrap());
    list.remove(&mut store, &l, &"A".to_string()).unwrap();
    assert!(!list.compact_if_needed(&mut store, &l, params).unwrap());
    list.remove(&mut store, &l, &"B".to_string()).unwrap();
    assert!(list.compact_if_needed(&mut store, &l, params).unwrap());
    assert!(!list.compact_if_needed(&mut store, &l, params).unwrap());
}

#[test]
fn retain_keeps_what_the_predicate_accepts() {
    let mut store = CandyStore::new();
    let list: CandyTypedList<String, String, u32> = CandyTypedList::new();
    let l = "l".to_string();
    for (k, v) in [("A", 1u32), ("B", 2), ("C", 3), ("D", 4)] {
        list.set(&mut store, &l, &k.to_string(), &v).unwrap();
    }
    list.retain(&mut store, &l, |_k: &String, v: &u32| Ok(v % 2 == 0))
        .unwrap();
    assert_eq!(keys_of(&list.iter(&store, &l)), vec!["B", "D"]);
}

#[test]
fn retain_stops_at_the_first_error() {
    let mut store = CandyStore::new();
    let list: CandyTypedList<String, String, u32> = CandyTypedList::new();
    let l = "l".to_string();
    for (k, v) in [("A", 1u32), ("B", 2), ("C", 3)] {
        list.set(&mut store, &l, &k.to_string(), &v).unwrap();
    }
    // Reject the first item, fail on the second: the first removal stands.
    let r = list.retain(&mut store, &l, |k: &String, _v: &u32| {
        if k == "A" {
            Ok(false)
        } else {
            Err(CandyError::Decode)
        }
    });
    assert!(r.is_err());
    assert_eq!(keys_of(&list.iter(&store, &l)), vec!["B", "C"]);
}
