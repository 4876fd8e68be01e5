use candy_typed::deque::CandyTypedDeque;
use candy_typed::store::CandyStore;

#[test]
fn end_to_end_indices() {
    let mut store = CandyStore::new();
    let q: CandyTypedDeque<String, u32> = CandyTypedDeque::new();
    let k = "q".to_string();
    q.push_tail(&mut store, &k, &10).unwrap();
    q.push_tail(&mut store, &k, &20).unwrap();
    assert_eq!(q.pop_head_with_idx(&mut store, &k).unwrap(), Some((0, 10)));
    q.push_head(&mut store, &k, &5).unwrap();
    assert_eq!(
        q.peek_head_with_idx(&store, &k).unwrap(),
        Some((2, 5))
    );
    assert_eq!(q.pop_tail_with_idx(&mut store, &k).unwrap(), Some((1, 20)));
    assert_eq!(q.len(&store, &k).unwrap(), 1);
    assert_eq!(q.range(&store, &k).unwrap(), 2..3);
}

#[test]
fn indices_increase_across_interleaved_pushes() {
    let mut store = CandyStore::new();
    let q: CandyTypedDeque<String, u32> = CandyTypedDeque::new();
    let k = "q".to_string();
    // Head and tail pushes draw from one counter: each new slot's index is
    // larger than every index handed out before, at either end.
    q.push_tail(&mut store, &k, &100).unwrap();
    assert_eq!(q.peek_tail_with_idx(&store, &k).unwrap(), Some((0, 100)));
    q.push_head(&mut store, &k, &101).unwrap();
    assert_eq!(q.peek_head_with_idx(&store, &k).unwrap(), Some((1, 101)));
    q.push_tail(&mut store, &k, &102).unwrap();
    assert_eq!(q.peek_tail_with_idx(&store, &k).unwrap(), Some((2, 102)));
    q.push_head(&mut store, &k, &103).unwrap();
    assert_eq!(q.peek_head_with_idx(&store, &k).unwrap(), Some((3, 103)));
    // Head-to-tail order reflects where each push went...
    let items: Vec<(usize, u32)> = q.iter(&store, &k).into_iter().map(|r| r.unwrap()).collect();
    assert_eq!(items, vec![(3, 103), (1, 101), (0, 100), (2, 102)]);
    // ...and no index repeats, even after pops free their slots.
    assert_eq!(q.pop_head_with_idx(&mut store, &k).unwrap(), Some((3, 103)));
    assert_eq!(q.pop_tail_with_idx(&mut store, &k).unwrap(), Some((2, 102)));
    q.push_tail(&mut store, &k, &104).unwrap();
    assert_eq!(q.peek_tail_with_idx(&store, &k).unwrap(), Some((4, 104)));
}

#[test]
fn len_and_range_track_pushes_and_pops() {
    let mut store = CandyStore::new();
    let q: CandyTypedDeque<String, u32> = CandyTypedDeque::new();
    let k = "q".to_string();
    for v in 0u32..5 {
        q.push_tail(&mut store, &k, &v).unwrap();
    }
    assert_eq!(q.len(&store, &k).unwrap(), 5);
    assert_eq!(q.range(&store, &k).unwrap(), 0..5);
    assert_eq!(q.pop_head(&mut store, &k).unwrap(), Some(0));
    assert_eq!(q.pop_head(&mut store, &k).unwrap(), Some(1));
    assert_eq!(q.len(&store, &k).unwrap(), 3);
    assert_eq!(q.range(&store, &k).unwrap(), 2..5);
    // Drained: the empty interval sits at the next index to be assigned.
    for _ in 0..3 {
        q.pop_tail(&mut store, &k).unwrap();
    }
    assert_eq!(q.len(&store, &k).unwrap(), 0);
    assert_eq!(q.range(&store, &k).unwrap(), 5..5);
    assert_eq!(q.pop_head(&mut store, &k).unwrap(), None);
    assert_eq!(q.pop_tail(&mut store, &k).unwrap(), None);
}

#[test]
fn iteration_runs_both_ways() {
    let mut store = CandyStore::new();
    let q: CandyTypedDeque<String, String> = CandyTypedDeque::new();
    let k = "q".to_string();
    for v in ["a", "b", "c"] {
        q.push_tail(&mut store, &k, &v.to_string()).unwrap();
    }
    let fwd: Vec<(usize, String)> = q.iter(&store, &k).into_iter().map(|r| r.unwrap()).collect();
    assert_eq!(
        fwd,
        vec![
            (0, "a".to_string()),
            (1, "b".to_string()),
            (2, "c".to_string()),
        ]
    );
    let bwd: Vec<(usize, String)> = q
        .iter_backwards(&store, &k)
        .into_iter()
        .map(|r| r.unwrap())
        .collect();
    assert_eq!(
        bwd,
        vec![
            (2, "c".to_string()),
            (1, "b".to_string()),
            (0, "a".to_string()),
        ]
    );
}

#[test]
fn plain_pops_and_peeks_drop_the_index() {
    let mut store = CandyStore::new();
    let q: CandyTypedDeque<String, u32> = CandyTypedDeque::new();
    let k = "q".to_string();
    assert_eq!(q.peek_head(&store, &k).unwrap(), None);
    q.push_tail(&mut store, &k, &7).unwrap();
    q.push_tail(&mut store, &k, &8).unwrap();
    assert_eq!(q.peek_head(&store, &k).unwrap(), Some(7));
    assert_eq!(q.peek_tail(&store, &k).unwrap(), Some(8));
    assert_eq!(q.pop_head(&mut store, &k).unwrap(), Some(7));
    assert_eq!(q.pop_tail(&mut store, &k).unwrap(), Some(8));
}

#[test]
fn queues_with_different_identifiers_are_independent() {
    let mut store = CandyStore::new();
    let q: CandyTypedDeque<String, u32> = CandyTypedDeque::new();
    q.push_tail(&mut store, &"one".to_string(), &1).unwrap();
    q.push_tail(&mut store, &"two".to_string(), &2).unwrap();
    // Each queue assigns its own indices, starting from zero.
    assert_eq!(
        q.pop_head_with_idx(&mut store, &"two".to_string()).unwrap(),
        Some((0, 2))
    );
    assert_eq!(q.len(&store, &"one".to_string()).unwrap(), 1);
    assert_eq!(
        q.pop_head_with_idx(&mut store, &"one".to_string()).unwrap(),
        Some((0, 1))
    );
}
