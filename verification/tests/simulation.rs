use particle_sim::particle::{Constraint, ParticalStorage, Particle, Vec2};

fn positions(s: &ParticalStorage) -> Vec<(i64, i64)> {
    s.particles.iter().map(|p| {
        let v = p.get_position();
        (v.x, v.y)
    }).collect()
}

#[test]
fn integration_is_deterministic() {
    let mut a = Particle::new(10, 10, 0, false);
    let mut b = Particle::new(10, 10, 0, false);
    a.apply_force(Vec2::new(0, 6));
    b.apply_force(Vec2::new(0, 6));
    a.update(2);
    b.update(2);
    assert_eq!(a.get_position(), b.get_position());
    assert_eq!(a.accl, Vec2::new(0, 0));
    assert_eq!(b.accl, Vec2::new(0, 0));
}

#[test]
fn integration_exact_result() {
    let mut p = Particle::new(10, 10, 0, false);
    p.apply_force(Vec2::new(0, 6));
    p.update(2);
    // velocity was zero; position moves by accl * t^2 on the y axis only
    assert_eq!(p.get_position(), Vec2::new(10, 34));
    assert_eq!(p.prev_pos, Vec2::new(10, 10));
    assert_eq!(p.accl, Vec2::new(0, 0));
}

#[test]
fn integration_keeps_implicit_velocity() {
    let mut s = ParticalStorage::new(1, 2);
    s.add(100, 100, 0, false);
    s.satisfy_gravity(6, 2);
    assert_eq!(positions(&s), vec![(100, 124)]);
    s.satisfy_gravity(6, 2);
    // velocity (0, 24) carries over, plus 6 * 2^2 again
    assert_eq!(positions(&s), vec![(100, 172)]);
}

#[test]
fn pinned_particle_ignores_force_and_integration() {
    let mut p = Particle::new(5, 5, 0, true);
    p.apply_force(Vec2::new(100, 100));
    p.update(3);
    assert_eq!(p.get_position(), Vec2::new(5, 5));
    p.set_position(Vec2::new(50, 50));
    assert_eq!(p.get_position(), Vec2::new(5, 5));
}

#[test]
fn pinned_particle_is_still_clamped() {
    let mut p = Particle::new(5, 5, 0, true);
    p.constraint_to_bounds(3, 3);
    assert_eq!(p.get_position(), Vec2::new(3, 3));
}

#[test]
fn bounds_clamp_moves_to_nearest_boundary() {
    let mut p = Particle::new(-5, 500, 10, false);
    p.constraint_to_bounds(100, 100);
    assert_eq!(p.get_position(), Vec2::new(10, 90));
}

#[test]
fn bounds_clamp_keeps_inside_point() {
    let mut p = Particle::new(50, 50, 10, false);
    p.constraint_to_bounds(100, 100);
    assert_eq!(p.get_position(), Vec2::new(50, 50));
}

#[test]
fn clamp_all_applies_to_every_particle() {
    let mut s = ParticalStorage::new(1, 2);
    s.add(-7, 20, 0, false);
    s.add(15, -3, 0, true);
    s.clamp_all_to_bounds(10, 10);
    assert_eq!(positions(&s), vec![(0, 10), (10, 0)]);
}

#[test]
fn constraint_remembers_rest_length_and_is_active() {
    let mut s = ParticalStorage::new(1, 2);
    s.add(0, 0, 0, false);
    s.add(3, 4, 0, false);
    let c = Constraint::new(0, 1, &s.particles);
    assert_eq!(c.init_length, 5);
    assert!(c.get_active());
}

#[test]
fn relaxation_at_rest_changes_nothing() {
    let mut s = ParticalStorage::new(1, 2);
    s.add(0, 0, 0, false);
    s.add(10, 0, 0, false);
    s.add_constraints();
    assert_eq!(s.constraints.len(), 1);
    for _ in 0..5 {
        s.satisfy_constraints();
        assert_eq!(positions(&s), vec![(0, 0), (10, 0)]);
    }
}

#[test]
fn relaxation_of_stretched_constraint_restores_rest_length() {
    let mut s = ParticalStorage::new(1, 2);
    s.add(0, 0, 0, false);
    s.add(10, 0, 0, false);
    s.add_constraints();
    s.particles[1].set_position(Vec2::new(14, 0));
    s.satisfy_constraints();
    // correction: 14 * (14 - 10) / (2 * 14) == 2, applied to both ends
    assert_eq!(positions(&s), vec![(2, 0), (12, 0)]);
}

#[test]
fn relaxation_of_compressed_constraint_restores_rest_length() {
    let mut s = ParticalStorage::new(1, 2);
    s.add(0, 0, 0, false);
    s.add(10, 0, 0, false);
    s.add_constraints();
    s.particles[1].set_position(Vec2::new(6, 0));
    s.satisfy_constraints();
    assert_eq!(positions(&s), vec![(-2, 0), (8, 0)]);
}

#[test]
fn relaxation_never_overshoots_one_unit_gap() {
    let mut s = ParticalStorage::new(1, 2);
    s.add(0, 0, 0, false);
    s.add(10, 0, 0, false);
    s.add_constraints();
    s.particles[1].set_position(Vec2::new(11, 0));
    s.satisfy_constraints();
    // half of a one-unit stretch rounds to zero motion
    assert_eq!(positions(&s), vec![(0, 0), (11, 0)]);
}

#[test]
fn relaxation_skips_pinned_endpoint() {
    let mut s = ParticalStorage::new(1, 2);
    s.add(0, 0, 0, true);
    s.add(10, 0, 0, false);
    s.add_constraints();
    s.particles[1].set_position(Vec2::new(14, 0));
    s.satisfy_constraints();
    // only the unpinned end moves, by the same correction of 2
    assert_eq!(positions(&s), vec![(0, 0), (12, 0)]);
}

#[test]
fn relaxation_skips_inactive_constraint() {
    let mut s = ParticalStorage::new(1, 2);
    s.add(0, 0, 0, false);
    s.add(10, 0, 0, false);
    s.add_constraints();
    s.constraints[0].deactivate();
    s.particles[1].set_position(Vec2::new(14, 0));
    s.satisfy_constraints();
    assert_eq!(positions(&s), vec![(0, 0), (14, 0)]);
}

#[test]
fn complete_graph_topology_count() {
    let mut s = ParticalStorage::new(2, 2);
    for i in 0..2 {
        for j in 0..2 {
            s.add(j * 50, i * 50, 0, false);
        }
    }
    s.add_constraints();
    // C(4, 2) pairs
    assert_eq!(s.constraints.len(), 6);
    assert!(s.constraints.iter().all(|c| c.get_active()));
}

#[test]
fn grid_topology_count() {
    let mut s = ParticalStorage::new(4, 4);
    for row in 0..4 {
        for col in 0..4 {
            s.add(col * 50, row * 50, 0, row == 0);
        }
    }
    s.add_constraints();
    // 4 rows of 3 horizontal links plus 3 rows of 4 vertical links
    assert_eq!(s.constraints.len(), 24);
}

#[test]
fn grid_topology_links_neighbors() {
    let mut s = ParticalStorage::new(4, 3);
    for row in 0..4 {
        for col in 0..3 {
            s.add(col * 50, row * 50, 0, false);
        }
    }
    s.add_constraints();
    assert_eq!(s.constraints.len(), 4 * 2 + 3 * 3);
    // first cell links right (0,1) then down (0,3)
    assert_eq!((s.constraints[0].p1_index, s.constraints[0].p2_index), (0, 1));
    assert_eq!((s.constraints[1].p1_index, s.constraints[1].p2_index), (0, 3));
    // every rest length matches the spacing used above
    for c in s.constraints.iter() {
        assert_eq!(c.init_length, 50);
    }
}

#[test]
fn degenerate_zero_length_constraint_is_guarded() {
    let mut s = ParticalStorage::new(1, 2);
    s.add(5, 5, 0, false);
    s.add(5, 5, 0, false);
    s.constraints.push(Constraint::new(0, 1, &s.particles));
    assert_eq!(s.constraints[0].init_length, 0);
    // coinciding endpoints: the correction falls back to zero instead of
    // dividing by the zero distance
    let c = s.constraints[0];
    assert_eq!(c.get_correction(&s.particles), Vec2::new(0, 0));
    s.satisfy_constraints();
    assert_eq!(positions(&s), vec![(5, 5), (5, 5)]);
}

#[test]
fn complete_graph_emits_pairs_in_scan_order() {
    let mut s = ParticalStorage::new(1, 3);
    s.add(0, 0, 0, false);
    s.add(10, 0, 0, false);
    s.add(20, 0, 0, false);
    s.add_constraints();
    let pairs: Vec<(usize, usize)> =
        s.constraints.iter().map(|c| (c.p1_index, c.p2_index)).collect();
    assert_eq!(pairs, vec![(0, 1), (0, 2), (1, 2)]);
    assert_eq!(s.constraints[0].init_length, 10);
    assert_eq!(s.constraints[1].init_length, 20);
}

#[test]
fn deactivation_is_idempotent() {
    let mut s = ParticalStorage::new(1, 2);
    s.add(0, 0, 0, false);
    s.add(10, 0, 0, false);
    let mut c = Constraint::new(0, 1, &s.particles);
    c.deactivate();
    let snapshot = c;
    c.deactivate();
    assert!(!c.get_active());
    assert_eq!(c, snapshot);
}

fn three_collinear_segments() -> ParticalStorage {
    let mut s = ParticalStorage::new(2, 2);
    s.add(0, 0, 0, false);
    s.add(10, 0, 0, false);
    s.add(20, 0, 0, false);
    s.add(30, 0, 0, false);
    s.constraints.push(Constraint::new(0, 1, &s.particles));
    s.constraints.push(Constraint::new(1, 2, &s.particles));
    s.constraints.push(Constraint::new(2, 3, &s.particles));
    s
}

#[test]
fn tearing_deactivates_exactly_the_nearest_constraint() {
    let mut s = three_collinear_segments();
    // (15, 4) is 4 from the middle segment and 6 from each outer one
    s.tear_cloth(Vec2::new(15, 4), 5);
    assert!(s.constraints[0].get_active());
    assert!(!s.constraints[1].get_active());
    assert!(s.constraints[2].get_active());
}

#[test]
fn tearing_out_of_tolerance_is_a_no_op() {
    let mut s = three_collinear_segments();
    s.tear_cloth(Vec2::new(100, 50), 5);
    assert!(s.constraints.iter().all(|c| c.get_active()));
}

#[test]
fn tearing_ignores_inactive_constraints() {
    let mut s = three_collinear_segments();
    s.tear_cloth(Vec2::new(15, 4), 5);
    assert!(!s.constraints[1].get_active());
    // the nearest remaining segment is now out of tolerance
    s.tear_cloth(Vec2::new(15, 4), 5);
    assert!(s.constraints[0].get_active());
    assert!(s.constraints[2].get_active());
}

#[test]
fn tearing_with_zero_tolerance_never_tears() {
    let mut s = three_collinear_segments();
    s.tear_cloth(Vec2::new(15, 0), 0);
    assert!(s.constraints.iter().all(|c| c.get_active()));
}

#[test]
fn find_nearest_picks_first_of_equal_minima() {
    let mut s = ParticalStorage::new(2, 2);
    s.add(0, 0, 0, false);
    s.add(10, 0, 0, false);
    s.add(0, 8, 0, false);
    s.add(10, 8, 0, false);
    s.constraints.push(Constraint::new(0, 1, &s.particles));
    s.constraints.push(Constraint::new(2, 3, &s.particles));
    // (5, 4) is 4 from both segments; the scan keeps the first
    assert_eq!(s.find_nearest_constraint(5, 4, 10), Some(0));
}

#[test]
fn storage_new_is_empty() {
    let s = ParticalStorage::new(8, 8);
    assert_eq!(s.particles.len(), 0);
    assert_eq!(s.constraints.len(), 0);
    assert_eq!(s.capacity_row, 8);
    assert_eq!(s.capacity_col, 8);
}

#[test]
fn gravity_does_not_move_pinned_particles() {
    let mut s = ParticalStorage::new(1, 2);
    s.add(100, 100, 0, true);
    s.add(200, 100, 0, false);
    s.satisfy_gravity(10, 1);
    assert_eq!(positions(&s), vec![(100, 100), (200, 110)]);
}
