use parallel_astar::{Grid, Incumbent, Node, NodeQueue, StateMap, TerminationFlag, NO_SOLUTION};

fn solved(size: i32) -> Grid {
    let cells = size * size;
    let mut data: Vec<Option<i32>> = (0..cells - 1).map(Some).collect();
    data.push(None);
    Grid::new(data, size, cells - 1)
}

fn node(state: Grid, f: i32, g: i32, h: i32) -> Node {
    Node { state, f, g, h }
}

#[test]
fn a_state_map_records_one_cost_for_a_board() {
    let a = solved(3);
    let b = a.do_action((-1, 0));
    let mut map = StateMap::new();
    assert!(map.is_empty());
    assert_eq!(map.get(&a), None);
    map.insert(a.clone(), 5);
    assert!(!map.is_empty());
    assert_eq!(map.get(&a), Some(5));
    assert!(map.contains_key(&a));
    assert!(!map.contains_key(&b));
    map.insert(b.clone(), 7);
    map.insert(a.clone(), 3);
    assert_eq!(map.get(&a), Some(3));
    assert_eq!(map.get(&b), Some(7));
    map.remove(&a);
    assert_eq!(map.get(&a), None);
    assert_eq!(map.get(&b), Some(7));
    map.remove(&a);
    assert!(!map.is_empty());
    map.remove(&b);
    assert!(map.is_empty());
}

#[test]
fn a_state_map_holds_many_boards() {
    let mut map = StateMap::new();
    let mut boards = Vec::new();
    for seed in 0..200u64 {
        boards.push(Grid::rand_with_seed(4, seed));
    }
    for (i, b) in boards.iter().enumerate() {
        map.insert(b.clone(), i as i32);
    }
    for (i, b) in boards.iter().enumerate() {
        let last = boards.iter().rposition(|o| o == b).unwrap();
        assert_eq!(map.get(b), Some(last as i32));
        assert!(i <= last);
    }
    for b in boards.iter().step_by(2) {
        map.remove(b);
    }
    for (i, b) in boards.iter().enumerate() {
        let gone = boards.iter().step_by(2).any(|o| o == b);
        assert_eq!(map.contains_key(b), !gone, "board {}", i);
    }
}

#[test]
fn a_queue_gives_the_least_f_first() {
    let g = solved(3);
    let mut q = NodeQueue::new();
    assert!(q.is_empty());
    assert_eq!(q.peek_f(), None);
    assert!(q.pop().is_none());
    for f in [5, 3, 9, 3, 7, 1, 8] {
        q.push(node(g.clone(), f, f - 1, 1));
    }
    assert_eq!(q.len(), 7);
    assert_eq!(q.peek_f(), Some(1));
    let mut out = Vec::new();
    while let Some(n) = q.pop() {
        assert_eq!(n.g, n.f - 1);
        out.push(n.f);
    }
    assert_eq!(out, vec![1, 3, 3, 5, 7, 8, 9]);
    assert!(q.is_empty());
}

#[test]
fn a_queue_keeps_up_with_pushes_between_pops() {
    let g = solved(3);
    let mut q = NodeQueue::new();
    let mut want: Vec<i32> = Vec::new();
    let mut x: i64 = 12345;
    for round in 0..300 {
        x = (x * 1103515245 + 12345) % 2147483648;
        let f = (x % 1000) as i32 - 500;
        q.push(node(g.clone(), f, 0, f));
        want.push(f);
        if round % 3 == 2 {
            want.sort();
            let least = want.remove(0);
            assert_eq!(q.peek_f(), Some(least));
            assert_eq!(q.pop().unwrap().f, least);
        }
        assert_eq!(q.len(), want.len());
    }
    want.sort();
    for f in want {
        assert_eq!(q.pop().unwrap().f, f);
    }
    assert!(q.pop().is_none());
}

#[test]
fn the_incumbent_starts_without_a_solution() {
    let inc = Incumbent::new(solved(3));
    assert_eq!(inc.f(), NO_SOLUTION);
    assert_eq!(inc.f(), i32::MAX);
    assert!(inc.solution().is_none());
    let start = inc.read();
    assert_eq!(start.state, solved(3));
    assert_eq!((start.g, start.h), (0, 0));
}

#[test]
fn the_incumbent_takes_only_what_is_strictly_better() {
    let g = solved(3);
    let mut inc = Incumbent::new(g.clone());
    assert!(inc.try_improve(&node(g.clone(), 20, 20, 0)));
    assert_eq!(inc.f(), 20);
    assert!(!inc.try_improve(&node(g.clone(), 20, 19, 1)));
    assert_eq!(inc.read().g, 20);
    assert!(!inc.try_improve(&node(g.clone(), 25, 25, 0)));
    assert_eq!(inc.f(), 20);
    assert!(inc.try_improve(&node(g.clone(), 12, 12, 0)));
    let best = inc.solution().unwrap();
    assert_eq!((best.f, best.g, best.h), (12, 12, 0));
    assert!(!inc.try_improve(&node(g.clone(), i32::MAX, 0, 0)));
}

#[test]
fn the_incumbent_never_grows() {
    let g = solved(3);
    let mut inc = Incumbent::new(g.clone());
    let offers = [40, 50, 40, 33, 90, 33, 32, 1000, 7, 8, 7, -2, 0];
    let mut seen = vec![inc.f()];
    for f in offers {
        inc.try_improve(&node(g.clone(), f, f, 0));
        seen.push(inc.f());
    }
    assert!(seen.windows(2).all(|w| w[1] <= w[0]));
    assert_eq!(seen, vec![i32::MAX, 40, 40, 40, 33, 33, 33, 32, 32, 7, 7, 7, -2, -2]);
}

#[test]
fn a_raised_flag_stays_raised() {
    let mut flag = TerminationFlag::new();
    assert!(!flag.is_raised());
    flag.raise();
    assert!(flag.is_raised());
    flag.raise();
    assert!(flag.is_raised());
}
