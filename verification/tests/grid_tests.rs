use parallel_astar::grid::unit_move;
use parallel_astar::{man_dist, Grid};

fn solved(size: i32) -> Grid {
    let cells = size * size;
    let mut data: Vec<Option<i32>> = (0..cells - 1).map(Some).collect();
    data.push(None);
    Grid::new(data, size, cells - 1)
}

fn board(cells: &[i32], size: i32) -> Grid {
    let data: Vec<Option<i32>> = cells.iter().map(|&v| if v < 0 { None } else { Some(v) }).collect();
    let empty = cells.iter().position(|&v| v < 0).unwrap() as i32;
    Grid::new(data, size, empty)
}

#[test]
fn new_keeps_its_arguments() {
    let g = Grid::new(vec![Some(4), None, Some(1), Some(0)], 2, 1);
    assert_eq!(g.data, vec![Some(4), None, Some(1), Some(0)]);
    assert_eq!(g.size, 2);
    assert_eq!(g.empty_idx, 1);
}

#[test]
fn is_valid_checks_shape_and_blank() {
    assert!(solved(3).is_valid());
    assert!(!Grid::new(vec![Some(0), None], 2, 1).is_valid());
    assert!(!Grid::new(vec![Some(0), Some(1), Some(2), None], 2, 0).is_valid());
    assert!(!Grid::new(vec![Some(0), Some(1), Some(2), None], 2, 4).is_valid());
    assert!(!Grid::new(vec![Some(0), Some(1), Some(2), None], 2, -1).is_valid());
    assert!(!Grid::new(vec![], 0, 0).is_valid());
    assert!(!Grid::new(vec![None], -1, 0).is_valid());
    assert!(Grid::new(vec![None], 1, 0).is_valid());
}

#[test]
fn get_coord_is_row_and_column() {
    let g = solved(3);
    assert_eq!(g.get_coord(0), (0, 0));
    assert_eq!(g.get_coord(5), (1, 2));
    assert_eq!(g.get_coord(8), (2, 2));
    let h = solved(4);
    assert_eq!(h.get_coord(7), (1, 3));
    assert_eq!(h.get_coord(12), (3, 0));
}

#[test]
fn valid_action_keeps_the_blank_on_the_board() {
    let g = solved(3);
    assert!(g.valid_action((-1, 0)));
    assert!(g.valid_action((0, -1)));
    assert!(!g.valid_action((1, 0)));
    assert!(!g.valid_action((0, 1)));
    assert!(g.valid_action((-2, -2)));
    assert!(!g.valid_action((-3, 0)));
    assert!(!g.valid_action((i32::MAX, 0)));
    assert!(!g.valid_action((0, i32::MIN)));
}

#[test]
fn do_action_slides_the_neighbour_into_the_blank() {
    let g = solved(3);
    let up = g.do_action((-1, 0));
    assert_eq!(up, board(&[0, 1, 2, 3, 4, -1, 6, 7, 5], 3));
    assert_eq!(up.empty_idx, 5);
    assert_eq!(up.size, 3);
    let left = g.do_action((0, -1));
    assert_eq!(left, board(&[0, 1, 2, 3, 4, 5, 6, -1, 7], 3));
    assert_eq!(left.do_action((0, 1)), g);
    assert!(up.is_valid());
}

#[test]
fn try_action_is_none_off_the_board() {
    let g = solved(3);
    assert!(g.try_action((1, 0)).is_none());
    assert!(g.try_action((0, 1)).is_none());
    assert_eq!(g.try_action((-1, 0)), Some(board(&[0, 1, 2, 3, 4, -1, 6, 7, 5], 3)));
}

#[test]
fn do_actions_skips_invalid_moves() {
    let g = solved(3);
    let walked = g.do_actions(vec![(1, 0), (-1, 0), (0, 1), (0, -1), (0, -1), (0, -1)]);
    assert_eq!(walked, board(&[0, 1, 2, -1, 3, 4, 6, 7, 5], 3));
    assert_eq!(g.do_actions(vec![]), g);
    assert_eq!(g.do_actions(vec![(1, 0), (0, 1)]), g);
}

#[test]
fn expand_lists_up_down_left_right() {
    let centre = board(&[0, 1, 2, 3, -1, 4, 5, 6, 7], 3);
    let next = centre.expand();
    assert_eq!(next.len(), 4);
    assert_eq!(next[0], board(&[0, -1, 2, 3, 1, 4, 5, 6, 7], 3));
    assert_eq!(next[1], board(&[0, 1, 2, 3, 6, 4, 5, -1, 7], 3));
    assert_eq!(next[2], board(&[0, 1, 2, -1, 3, 4, 5, 6, 7], 3));
    assert_eq!(next[3], board(&[0, 1, 2, 3, 4, -1, 5, 6, 7], 3));
    let corner = solved(3).expand();
    assert_eq!(corner.len(), 2);
    assert_eq!(corner[0], board(&[0, 1, 2, 3, 4, -1, 6, 7, 5], 3));
    assert_eq!(corner[1], board(&[0, 1, 2, 3, 4, 5, 6, -1, 7], 3));
    assert_eq!(Grid::new(vec![None], 1, 0).expand().len(), 0);
}

#[test]
fn unit_moves_are_in_expansion_order() {
    assert_eq!(unit_move(0), (-1, 0));
    assert_eq!(unit_move(1), (1, 0));
    assert_eq!(unit_move(2), (0, -1));
    assert_eq!(unit_move(3), (0, 1));
}

#[test]
fn boards_compare_by_cells_size_and_blank() {
    let g = solved(3);
    assert!(g.same_as(&solved(3)));
    assert!(g == g.clone());
    assert!(g != g.do_action((-1, 0)));
    assert!(!g.same_as(&solved(2)));
    let odd = Grid::new(g.data.clone(), 3, 0);
    assert!(!g.same_as(&odd));
}

#[test]
fn man_dist_of_a_board_to_itself_is_zero() {
    assert_eq!(man_dist(&solved(3), &solved(3)), 0);
    assert_eq!(man_dist(&solved(4), &solved(4)), 0);
}

#[test]
fn man_dist_leaves_the_blank_out() {
    let g = solved(3);
    assert_eq!(man_dist(&g.do_action((-1, 0)), &g), 1);
    assert_eq!(man_dist(&g.do_action((0, -1)), &g), 1);
    let two = g.do_action((-1, 0)).do_action((0, -1));
    assert_eq!(man_dist(&two, &g), 2);
    let far = board(&[-1, 1, 2, 3, 4, 5, 6, 7, 0], 3);
    assert_eq!(man_dist(&far, &g), 4);
    let mixed = board(&[7, 1, 2, 3, 4, 5, 6, 0, -1], 3);
    assert_eq!(man_dist(&mixed, &g), 6);
}

#[test]
fn man_dist_drops_by_at_most_one_along_a_move() {
    let goal = solved(3);
    for seed in 0..20u64 {
        let s = goal.rand_actions_with_seed(25, seed);
        let here = man_dist(&s, &goal);
        for t in s.expand() {
            let there = man_dist(&t, &goal);
            assert!(here <= there + 1 && there <= here + 1);
        }
    }
}

#[test]
fn man_dist_takes_the_last_cell_of_a_repeated_value() {
    let from = Grid::new(vec![Some(1), Some(1), Some(1), None], 2, 3);
    let to = Grid::new(vec![Some(1), Some(1), Some(1), None], 2, 3);
    assert_eq!(man_dist(&from, &to), 2 + 1 + 0 + 0);
}

#[test]
fn retrace_walks_back_along_the_actions() {
    let g = solved(3);
    let actions = vec![(-1, 0), (0, -1)];
    let end = g.do_actions(actions.clone());
    let trail = end.retrace(&actions);
    assert_eq!(trail.len(), 3);
    assert_eq!(trail[0], end);
    assert_eq!(trail[1], g.do_action((-1, 0)));
    assert_eq!(trail[2], g);
    let still = g.retrace(&vec![]);
    assert_eq!(still.len(), 1);
    assert_eq!(still[0], g);
}

#[test]
fn can_retrace_tells_whether_the_way_back_stays_on_the_board() {
    let g = solved(3);
    assert!(g.can_retrace(&vec![]));
    assert!(g.can_retrace(&vec![(1, 0)]));
    assert!(g.can_retrace(&vec![(0, 1), (1, 0)]));
    assert!(!g.can_retrace(&vec![(-1, 0)]));
    assert!(g.can_retrace(&vec![(-1, 0), (1, 0)]));
    assert!(!g.can_retrace(&vec![(1, 0), (-1, 0)]));
    assert!(!g.can_retrace(&vec![(i32::MIN, 0)]));
    assert!(!g.can_retrace(&vec![(0, i32::MIN)]));
    let end = g.do_action((-1, 0)).do_action((0, -1));
    let actions = vec![(-1, 0), (0, -1)];
    assert!(end.can_retrace(&actions));
    assert_eq!(end.retrace(&actions).len(), 3);
}
