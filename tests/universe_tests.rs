use autopoiesis::pos::{adjacent, distance, neighbor, new_bounds, FIELD_LIMIT};
use autopoiesis::{pos, Bond, Pos, SetupError, Universe, DECAY_SCALE};

const WIDE: i32 = 1000;

fn window() -> (Pos, Pos) {
    (pos(-WIDE, -WIDE), pos(2 * WIDE, 2 * WIDE))
}

fn catalysts_of(u: &Universe) -> Vec<Pos> {
    let (tl, size) = window();
    u.get_catalysts_in(&tl, &size)
}

fn links_of(u: &Universe) -> Vec<Pos> {
    let (tl, size) = window();
    let mut all = u.get_free_links_in(&tl, &size);
    all.extend(u.get_single_bonded_links_in(&tl, &size));
    all.extend(u.get_double_bonded_links_in(&tl, &size));
    all
}

fn holes_of(u: &Universe) -> Vec<Pos> {
    let (tl, size) = window();
    u.get_holes_in(&tl, &size)
}

fn assert_invariants(u: &Universe) {
    let cats = catalysts_of(u);
    let links = links_of(u);
    let holes = holes_of(u);
    assert_eq!(u.num_links(), u.num_holes());
    assert_eq!(links.len(), u.num_links());
    assert_eq!(holes.len(), u.num_holes());
    assert_eq!(cats.len(), u.num_catalysts());
    for h in &holes {
        assert!(!cats.contains(h));
        assert!(!links.contains(h));
        assert!(u.is_hole(h));
    }
    for c in &cats {
        assert!(!links.contains(c));
        assert!(u.is_catalyst(c));
    }
    for l in &links {
        assert!(u.is_link(l));
        assert!(u.num_bonds(l) <= 2);
    }
    assert!(u.validate_bonds());
}

#[test]
fn pos_builds_coordinates() {
    let p = pos(3, -4);
    assert_eq!(p.x, 3);
    assert_eq!(p.y, -4);
}

#[test]
fn neighbor_table() {
    let p = pos(5, 5);
    assert_eq!(neighbor(&p, 0), pos(5, 4));
    assert_eq!(neighbor(&p, 1), pos(6, 5));
    assert_eq!(neighbor(&p, 2), pos(5, 6));
    assert_eq!(neighbor(&p, 3), pos(4, 5));
    assert_eq!(neighbor(&p, 4), pos(4, 4));
    assert_eq!(neighbor(&p, 5), pos(4, 6));
    assert_eq!(neighbor(&p, 6), pos(6, 6));
    assert_eq!(neighbor(&p, 7), pos(6, 4));
}

#[test]
fn adjacency_is_four_connected() {
    let p = pos(0, 0);
    assert!(adjacent(&p, &pos(0, 1)));
    assert!(adjacent(&p, &pos(-1, 0)));
    assert!(!adjacent(&p, &pos(1, 1)));
    assert!(!adjacent(&p, &p));
    assert!(!adjacent(&pos(i32::MAX, 0), &pos(i32::MIN, 0)));
}

#[test]
fn squared_distance() {
    assert_eq!(distance(&pos(0, 0), &pos(3, 4)), 25);
    assert_eq!(distance(&pos(-2, 1), &pos(-2, 1)), 0);
    assert_eq!(distance(&pos(i32::MIN, i32::MIN), &pos(i32::MAX, i32::MAX)), 2 * (u32::MAX as u128) * (u32::MAX as u128));
}

#[test]
fn bounds_grow_to_contain_position() {
    let (ul, lr) = new_bounds(&pos(12, -3), &pos(0, 0), &pos(10, 10));
    assert_eq!(ul, pos(0, -3));
    assert_eq!(lr, pos(13, 10));
    let (ul, lr) = new_bounds(&pos(5, 5), &pos(0, 0), &pos(10, 10));
    assert_eq!(ul, pos(0, 0));
    assert_eq!(lr, pos(10, 10));
    let (ul, lr) = new_bounds(&pos(-1, 10), &pos(0, 0), &pos(10, 10));
    assert_eq!(ul, pos(-1, 0));
    assert_eq!(lr, pos(10, 11));
}

#[test]
fn bond_equality_ignores_order() {
    let a = pos(1, 2);
    let b = pos(2, 2);
    let c = pos(3, 3);
    assert!(Bond::new(a, b) == Bond::new(b, a));
    assert!(Bond::new(a, b) == Bond::new(a, b));
    assert!(Bond::new(a, b) != Bond::new(a, c));
}

#[test]
fn too_many_catalysts_is_rejected() {
    assert!(matches!(Universe::new(2, 2, 0, 5, 1), Err(SetupError::TooManyCatalysts)));
    assert!(matches!(Universe::new(0, 5, 0, 1, 1), Err(SetupError::TooManyCatalysts)));
    assert!(matches!(Universe::new(-3, 5, 0, 1, 1), Err(SetupError::TooManyCatalysts)));
}

#[test]
fn seeding_fills_the_whole_rectangle() {
    let u = Universe::new(2, 2, 0, 4, 7).ok().unwrap();
    let mut cats = catalysts_of(&u);
    cats.sort_by_key(|p| (p.x, p.y));
    assert_eq!(cats, vec![pos(0, 0), pos(0, 1), pos(1, 0), pos(1, 1)]);
    assert_eq!(u.num_holes(), 0);
    assert_eq!(u.num_links(), 0);
}

#[test]
fn catalysts_are_distinct_and_inside_seed_rectangle() {
    for seed in 0..20u64 {
        let u = Universe::new(10, 10, 0, 10, seed).ok().unwrap();
        let cats = catalysts_of(&u);
        assert_eq!(cats.len(), 10);
        for (i, c) in cats.iter().enumerate() {
            assert!(0 <= c.x && c.x < 10 && 0 <= c.y && c.y < 10);
            assert!(!cats[i + 1..].contains(c));
        }
    }
}

#[test]
fn same_seed_same_universe() {
    let mut a = Universe::new(10, 10, 50_000, 5, 42).ok().unwrap();
    let mut b = Universe::new(10, 10, 50_000, 5, 42).ok().unwrap();
    for _ in 0..200 {
        a.update();
        b.update();
    }
    assert_eq!(catalysts_of(&a), catalysts_of(&b));
    assert_eq!(links_of(&a), links_of(&b));
    assert_eq!(holes_of(&a), holes_of(&b));
}

#[test]
fn empty_universe_update_is_a_no_op() {
    let mut u = Universe::new(0, 0, 0, 0, 3).ok().unwrap();
    u.update();
    assert_eq!(u.num_catalysts(), 0);
    assert_eq!(u.num_links(), 0);
    assert_eq!(u.num_holes(), 0);
}

#[test]
fn invariants_hold_over_many_ticks() {
    let mut u = Universe::new(10, 10, 50_000, 10, 11).ok().unwrap();
    for _ in 0..3000 {
        u.update();
        assert_eq!(u.num_links(), u.num_holes());
        assert_eq!(u.num_catalysts(), 10);
    }
    assert_invariants(&u);
}

#[test]
fn single_catalyst_without_decay_produces() {
    let mut u = Universe::new(10, 10, 0, 1, 5).ok().unwrap();
    for _ in 0..50 {
        u.update();
        assert_eq!(u.num_links(), u.num_holes());
    }
    assert!(u.num_links() >= 1);
    assert_invariants(&u);
}

#[test]
fn produce_makes_one_link_and_one_hole() {
    let mut u = Universe::new(10, 10, 0, 1, 9).ok().unwrap();
    let c = catalysts_of(&u)[0];
    u.produce(&c);
    assert_eq!(u.num_links(), 1);
    assert_eq!(u.num_holes(), 1);
    let link = links_of(&u)[0];
    let hole = holes_of(&u)[0];
    assert!(adjacent(&link, &c));
    assert!(adjacent(&hole, &link));
    assert!(!adjacent(&hole, &c));
}

#[test]
fn fresh_link_is_free() {
    let mut u = Universe::new(10, 10, 0, 1, 13).ok().unwrap();
    let c = catalysts_of(&u)[0];
    u.produce(&c);
    let (tl, size) = window();
    let free = u.get_free_links_in(&tl, &size);
    assert_eq!(free.len(), 1);
    assert!(adjacent(&free[0], &c));
    assert_eq!(u.num_bonds(&free[0]), 0);
}

#[test]
fn enclosed_catalyst_tick_changes_nothing() {
    let mut u = Universe::new(3, 3, 0, 9, 17).ok().unwrap();
    let before = catalysts_of(&u);
    let mut centre = None;
    for i in 0..9 {
        if u.entity_at(i) == pos(1, 1) {
            centre = Some(i);
        }
    }
    let i = centre.unwrap();
    for _ in 0..20 {
        u.update_at(i);
        assert_eq!(catalysts_of(&u), before);
        assert_eq!(u.num_links(), 0);
        assert_eq!(u.num_holes(), 0);
    }
}

fn bonded_pair(seed: u64) -> Option<Universe> {
    let mut u = Universe::new(10, 10, DECAY_SCALE, 1, seed).ok().unwrap();
    let c = catalysts_of(&u)[0];
    let (tl, size) = window();
    for _ in 0..4 {
        u.produce(&c);
        if u.get_single_bonded_links_in(&tl, &size).len() == 2 && u.num_links() == 2 {
            return Some(u);
        }
    }
    None
}

#[test]
fn full_decay_rate_always_decays() {
    let mut found = false;
    for seed in 0..40u64 {
        let (tl, size) = window();
        let mut u = match bonded_pair(seed) {
            Some(u) => u,
            None => continue,
        };
        found = true;
        let bonded = u.get_single_bonded_links_in(&tl, &size);
        let links = u.num_links();
        let holes = u.num_holes();
        u.update_link(&bonded[0]);
        assert_eq!(u.num_links(), links - 1);
        assert_eq!(u.num_holes(), holes - 1);
        assert!(!u.is_link(&bonded[0]));
        assert_eq!(u.num_bonds(&bonded[0]), 0);
        assert_eq!(u.num_bonds(&bonded[1]), 0);
        assert!(u.validate_bonds());
    }
    assert!(found);
}

#[test]
fn zero_decay_rate_never_decays() {
    let mut u = Universe::new(10, 10, 0, 1, 21).ok().unwrap();
    let c = catalysts_of(&u)[0];
    u.produce(&c);
    for _ in 0..100 {
        let l = links_of(&u)[0];
        u.update_link(&l);
        assert_eq!(u.num_links(), 1);
        assert_eq!(u.num_holes(), 1);
    }
}

#[test]
fn windows_are_inclusive() {
    let u = Universe::new(3, 3, 0, 9, 2).ok().unwrap();
    assert_eq!(u.get_catalysts_in(&pos(0, 0), &pos(0, 0)), vec![pos(0, 0)]);
    assert_eq!(u.get_catalysts_in(&pos(1, 1), &pos(1, 1)).len(), 4);
    assert_eq!(u.get_catalysts_in(&pos(3, 3), &pos(5, 5)).len(), 0);
    assert!(u.get_catalysts_in(&pos(-5, -5), &pos(4, 4)).is_empty());
    assert_eq!(u.get_catalysts_in(&pos(FIELD_LIMIT, FIELD_LIMIT), &pos(i32::MAX, i32::MAX)).len(), 0);
    assert_eq!(u.get_holes_in(&pos(0, 0), &pos(10, 10)).len(), 0);
}

#[test]
fn bonded_links_stay_put_without_decay() {
    let mut found = false;
    for seed in 0..40u64 {
        let mut u = Universe::new(10, 10, 0, 1, seed).ok().unwrap();
        let c = catalysts_of(&u)[0];
        let (tl, size) = window();
        for _ in 0..4 {
            u.produce(&c);
        }
        let bonded = u.get_single_bonded_links_in(&tl, &size);
        if bonded.is_empty() {
            continue;
        }
        found = true;
        let b = bonded[0];
        assert!(u.is_bonded(&b));
        for _ in 0..20 {
            u.update_link(&b);
            assert!(u.is_link(&b));
        }
    }
    assert!(found);
}

#[test]
fn bonded_pair_queries() {
    let mut found = false;
    for seed in 0..40u64 {
        let u = match bonded_pair(seed) {
            Some(u) => u,
            None => continue,
        };
        found = true;
        let (tl, size) = window();
        let pair = u.get_single_bonded_links_in(&tl, &size);
        assert!(u.bonded(&pair[0], &pair[1]));
        assert!(u.bonded(&pair[1], &pair[0]));
        assert!(!u.bonded(&pair[0], &pair[0]));
        assert_eq!(u.num_bonds(&pair[0]), 1);
        assert!(u.is_bonded(&pair[1]));
        assert!(u.get_free_links_in(&tl, &size).is_empty());
        assert!(u.get_double_bonded_links_in(&tl, &size).is_empty());
        assert!(u.validate_bonds());
    }
    assert!(found);
}

#[test]
fn selecting_a_bonded_link_with_full_decay_decays_it() {
    let mut found = false;
    for seed in 0..40u64 {
        let mut u = match bonded_pair(seed) {
            Some(u) => u,
            None => continue,
        };
        found = true;
        let (tl, size) = window();
        let pair = u.get_single_bonded_links_in(&tl, &size);
        let total = u.num_holes() + u.num_links() + u.num_catalysts();
        let i = (0..total).find(|&i| u.entity_at(i) == pair[0]).unwrap();
        assert!(i >= u.num_holes() && i < u.num_holes() + u.num_links());
        u.update_at(i);
        assert!(!u.is_link(&pair[0]));
        assert_eq!(u.num_links(), 1);
        assert_eq!(u.num_holes(), 1);
        assert_eq!(u.get_free_links_in(&tl, &size), vec![pair[1]]);
    }
    assert!(found);
}

#[test]
fn surrounded_catalyst_cannot_produce() {
    let mut u = Universe::new(3, 3, 0, 9, 23).ok().unwrap();
    u.produce(&pos(1, 1));
    assert_eq!(u.num_links(), 0);
    assert_eq!(u.num_holes(), 0);
    u.produce(&pos(0, 0));
    assert_eq!(u.num_links(), 1);
    assert_eq!(u.num_holes(), 1);
}

#[test]
fn population_order_is_holes_links_catalysts() {
    let mut u = Universe::new(10, 10, 0, 1, 29).ok().unwrap();
    let c = catalysts_of(&u)[0];
    u.produce(&c);
    assert!(u.is_hole(&u.entity_at(0)));
    assert!(u.is_link(&u.entity_at(1)));
    assert_eq!(u.entity_at(2), c);
}

#[test]
fn hole_ticks_keep_counts() {
    let mut u = Universe::new(10, 10, 0, 1, 31).ok().unwrap();
    let c = catalysts_of(&u)[0];
    u.produce(&c);
    for _ in 0..100 {
        u.update_at(0);
        assert_eq!(u.num_holes(), 1);
        assert_eq!(u.num_links(), 1);
        assert_eq!(u.num_catalysts(), 1);
        assert!(u.is_hole(&u.entity_at(0)));
    }
    assert_invariants(&u);
}
