use parallel_astar::{expand, man_dist, try_expand, Grid, Log, Node};

fn solved(size: i32) -> Grid {
    let cells = size * size;
    let mut data: Vec<Option<i32>> = (0..cells - 1).map(Some).collect();
    data.push(None);
    Grid::new(data, size, cells - 1)
}

fn flat(_: &Grid, _: &Grid) -> i32 {
    7
}

fn huge(_: &Grid, _: &Grid) -> i32 {
    i32::MAX
}

fn below_zero(_: &Grid, _: &Grid) -> i32 {
    -3
}

#[test]
fn a_new_node_costs_nothing() {
    let n = Node::new(solved(3));
    assert_eq!(n.state, solved(3));
    assert_eq!((n.f, n.g, n.h), (0, 0, 0));
}

#[test]
fn calc_cost_sets_h_and_f() {
    let goal = solved(3);
    let mut n = Node::new(goal.do_action((-1, 0)));
    n.g = 5;
    n.calc_cost(&goal, man_dist);
    assert_eq!((n.f, n.g, n.h), (6, 5, 1));
    n.calc_cost(&goal, flat);
    assert_eq!((n.f, n.g, n.h), (12, 5, 7));
    n.g = -4;
    n.calc_cost(&goal, below_zero);
    assert_eq!((n.f, n.g, n.h), (-7, -4, -3));
}

#[test]
fn expand_makes_a_node_for_each_successor() {
    let goal = solved(3);
    let mut parent = Node::new(goal.clone());
    parent.g = 4;
    let children = expand(&parent, &goal, man_dist);
    assert_eq!(children.len(), 2);
    assert_eq!(children[0].state, goal.do_action((-1, 0)));
    assert_eq!(children[1].state, goal.do_action((0, -1)));
    for child in &children {
        assert_eq!((child.f, child.g, child.h), (6, 5, 1));
    }
}

#[test]
fn try_expand_gives_what_expand_gives() {
    let goal = solved(3);
    let parent = Node::new(goal.do_action((-1, 0)));
    let a = expand(&parent, &goal, man_dist);
    let b = try_expand(&parent, &goal, &man_dist).unwrap();
    assert_eq!(a.len(), 3);
    assert_eq!(a.len(), b.len());
    for i in 0..a.len() {
        assert_eq!(a[i].state, b[i].state);
        assert_eq!((a[i].f, a[i].g, a[i].h), (b[i].f, b[i].g, b[i].h));
    }
    assert_eq!((a[1].f, a[1].g, a[1].h), (1, 1, 0));
}

#[test]
fn try_expand_is_none_where_a_cost_overflows() {
    let goal = solved(3);
    let mut parent = Node::new(goal.clone());
    assert!(try_expand(&parent, &goal, &huge).is_none());
    parent.g = i32::MAX;
    assert!(try_expand(&parent, &goal, &man_dist).is_none());
    assert!(try_expand(&parent, &goal, &below_zero).is_none());
    parent.g = i32::MAX - 2;
    let children = try_expand(&parent, &goal, &man_dist).unwrap();
    assert_eq!(children[0].f, i32::MAX);
    parent.g = i32::MAX - 1;
    assert!(try_expand(&parent, &goal, &man_dist).is_none());
    parent.g = i32::MIN;
    assert!(try_expand(&parent, &goal, &below_zero).is_none());
}

#[test]
fn a_board_without_moves_has_no_children() {
    let lone = Grid::new(vec![None], 1, 0);
    let mut parent = Node::new(lone.clone());
    parent.g = i32::MAX;
    assert_eq!(try_expand(&parent, &lone, &man_dist).unwrap().len(), 0);
}

#[test]
fn a_new_log_counts_nothing() {
    let log = Log::new();
    assert_eq!((log.iter_cnt, log.node_cnt, log.abort_cnt), (0, 0, 0));
}

#[test]
fn merge_adds_rounds_and_idle_rounds() {
    let mut log = Log { iter_cnt: 10, node_cnt: 20, abort_cnt: 3 };
    log.merge(Log { iter_cnt: 5, node_cnt: 100, abort_cnt: 2 });
    assert_eq!(log.iter_cnt, 15);
    assert_eq!(log.abort_cnt, 5);
    assert_eq!(log.node_cnt, 22);
}
