use pathforge::algorithms::frontier::{Entry, Frontier};

fn entry(f: u64, tie: u64, seq: u128) -> Entry<u32> {
    Entry { f, tie, seq, g: f, node: seq as u32 }
}

#[test]
fn entries_leave_by_priority_then_tie_then_insertion() {
    let mut frontier: Frontier<u32> = Frontier::new();
    assert_eq!(frontier.len(), 0);
    assert!(frontier.pop_min().is_none());
    let mut seq = 0u128;
    let mut state = 12345u64;
    let mut pushed = Vec::new();
    for _ in 0..500 {
        state = state.wrapping_mul(6364136223846793005).wrapping_add(1442695040888963407);
        let f = (state >> 33) % 17;
        let tie = (state >> 20) % 3;
        let e = entry(f, tie, seq);
        seq += 1;
        frontier.push(e);
        pushed.push((e.f, e.tie, e.seq));
    }
    assert_eq!(frontier.len(), 500);
    pushed.sort();
    let mut left = Vec::new();
    while let Some(e) = frontier.pop_min() {
        left.push((e.f, e.tie, e.seq));
    }
    assert_eq!(left, pushed);
    assert_eq!(frontier.len(), 0);
}

#[test]
fn pushes_and_pops_can_alternate() {
    let mut frontier: Frontier<u32> = Frontier::new();
    frontier.push(entry(5, 0, 0));
    frontier.push(entry(3, 0, 1));
    assert_eq!(frontier.pop_min().unwrap().seq, 1);
    frontier.push(entry(4, 0, 2));
    frontier.push(entry(4, 0, 3));
    frontier.push(entry(9, 0, 4));
    assert_eq!(frontier.pop_min().unwrap().seq, 2);
    assert_eq!(frontier.pop_min().unwrap().seq, 3);
    frontier.push(entry(1, 7, 5));
    frontier.push(entry(1, 2, 6));
    assert_eq!(frontier.pop_min().unwrap().seq, 6);
    assert_eq!(frontier.pop_min().unwrap().seq, 5);
    assert_eq!(frontier.pop_min().unwrap().seq, 0);
    assert_eq!(frontier.pop_min().unwrap().seq, 4);
    assert!(frontier.pop_min().is_none());
}
