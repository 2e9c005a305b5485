use parallel_astar::hash::{ABSTRACT_SEED, ZOBRIST_SEED};
use parallel_astar::router::{scatters, ALWAYS_SCATTER};
use parallel_astar::{AZHasher, Grid, Router, StateHash, ZHasher};

fn solved(size: i32) -> Grid {
    let cells = size * size;
    let mut data: Vec<Option<i32>> = (0..cells - 1).map(Some).collect();
    data.push(None);
    Grid::new(data, size, cells - 1)
}

#[test]
fn a_zobrist_table_has_a_token_for_each_tile_in_each_cell() {
    let z = ZHasher::new(3);
    assert_eq!(z.htable.len(), 8);
    assert!(z.htable.iter().all(|row| row.len() == 9));
    let big = ZHasher::new(4);
    assert_eq!(big.htable.len(), 15);
    assert!(big.htable.iter().all(|row| row.len() == 16));
    assert_eq!(ZHasher::new(0).htable.len(), 0);
    let one = ZHasher::new(1);
    assert_eq!(one.htable.len(), 0);
}

#[test]
fn a_zobrist_table_is_fixed_by_its_seed() {
    let a = ZHasher::new(3);
    let b = ZHasher::new(3);
    assert_eq!(a.htable, b.htable);
    let c = ZHasher::with_seed(3, ZOBRIST_SEED);
    assert_eq!(a.htable, c.htable);
    let d = ZHasher::with_seed(3, ZOBRIST_SEED + 1);
    assert_ne!(a.htable, d.htable);
    assert_eq!(a.clone().htable, a.htable);
}

#[test]
fn tokens_are_not_all_alike() {
    let z = ZHasher::new(3);
    let first = z.htable[0][0];
    assert!(z.htable.iter().any(|row| row.iter().any(|&t| t != first)));
}

#[test]
fn hash_prop_reads_the_table() {
    let z = ZHasher::new(3);
    assert_eq!(z.hash_prop(0, 0), z.htable[0][0]);
    assert_eq!(z.hash_prop(7, 8), z.htable[7][8]);
    assert_eq!(z.hash_prop(3, 5), z.htable[3][5]);
}

#[test]
fn an_abstract_table_has_a_token_for_each_tile_in_each_row() {
    let a = AZHasher::new(3);
    assert_eq!(a.size, 3);
    assert_eq!(a.htable.len(), 8);
    assert!(a.htable.iter().all(|row| row.len() == 3));
    let again = AZHasher::with_seed(3, ABSTRACT_SEED);
    assert_eq!(a.htable, again.htable);
    assert_ne!(a.htable, AZHasher::with_seed(3, 5).htable);
}

#[test]
fn abx_is_the_row_of_a_cell() {
    let a = AZHasher::new(3);
    assert_eq!(a.abx(0), 0);
    assert_eq!(a.abx(2), 0);
    assert_eq!(a.abx(3), 1);
    assert_eq!(a.abx(8), 2);
    assert_eq!(a.abx(-1), 0);
    assert_eq!(a.abx(-4), -1);
    assert_eq!(a.hash_prop(5, 7), a.htable[5][2]);
    assert_eq!(a.hash_prop(5, 6), a.hash_prop(5, 8));
}

#[test]
fn a_hash_is_the_xor_of_the_tokens_of_the_tiles() {
    let z = ZHasher::new(3);
    let g = solved(3);
    let mut want = 0u32;
    for i in 0..8 {
        want ^= z.htable[i][i];
    }
    assert_eq!(g.hash_with(&z), want);
    let moved = g.do_action((-1, 0));
    let shifted = want ^ z.htable[5][5] ^ z.htable[5][8];
    assert_eq!(moved.hash_with(&z), shifted);
    assert_eq!(Grid::new(vec![None], 1, 0).hash_with(&ZHasher::new(1)), 0);
}

#[test]
fn an_abstract_hash_ignores_moves_within_a_row() {
    let a = AZHasher::new(3);
    let g = solved(3);
    assert_eq!(g.hash_with(&a), g.do_action((0, -1)).hash_with(&a));
    assert_eq!(g.hash_with(&a), g.do_action((0, -1)).do_action((0, -1)).hash_with(&a));
}

#[test]
fn the_owner_is_the_hash_modulo_the_workers() {
    let z = ZHasher::new(3);
    let g = solved(3).do_action((-1, 0));
    let hash = g.hash_with(&z);
    for workers in 1..9u32 {
        assert_eq!(g.owner(&z, workers), hash % workers);
    }
}

#[test]
fn ownership_routes_a_board_to_its_owner_every_time() {
    let z = ZHasher::new(3);
    let g = solved(3).do_action((0, -1));
    let owner = g.owner(&z, 8);
    let mut router = Router::owner(ZHasher::new(3));
    for from in 0..8u32 {
        assert_eq!(router.route(&g, from, 8), owner);
        assert_eq!(router.route(&g.clone(), from, 8), owner);
    }
}

#[test]
fn diffusion_at_zero_keeps_a_board_where_it_was_made() {
    let g = solved(3);
    let mut router: Router<ZHasher> = Router::diffusion(10, 0);
    for from in 0..8u32 {
        for _ in 0..20 {
            assert_eq!(router.route(&g, from, 8), from);
        }
    }
}

#[test]
fn diffusion_at_one_scatters_over_the_workers() {
    let g = solved(3);
    let mut router: Router<ZHasher> = Router::diffusion(10, ALWAYS_SCATTER);
    let mut seen = [false; 4];
    for _ in 0..200 {
        let dest = router.route(&g, 0, 4);
        assert!(dest < 4);
        seen[dest as usize] = true;
    }
    assert!(seen.iter().all(|&s| s));
}

#[test]
fn diffusion_in_between_stays_or_scatters() {
    let g = solved(3);
    let mut router: Router<ZHasher> = Router::diffusion(10, ALWAYS_SCATTER / 2);
    let mut stayed = 0;
    for _ in 0..400 {
        let dest = router.route(&g, 3, 4);
        assert!(dest < 4);
        if dest == 3 {
            stayed += 1;
        }
    }
    assert!(stayed > 200 && stayed < 400);
}

#[test]
fn a_draw_scatters_below_the_threshold() {
    assert!(!scatters(0, 0));
    assert!(!scatters(u32::MAX, 0));
    assert!(scatters(0, 1));
    assert!(!scatters(1, 1));
    assert!(scatters(u32::MAX, ALWAYS_SCATTER));
    assert!(!scatters(u32::MAX, ALWAYS_SCATTER - 1));
    assert!(scatters(u32::MAX - 1, ALWAYS_SCATTER - 1));
    assert!(scatters(7, ALWAYS_SCATTER / 2));
    assert!(!scatters(1 << 31, ALWAYS_SCATTER / 2));
    assert!(scatters(5, u64::MAX));
}
