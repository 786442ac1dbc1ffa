use blightcore::{
    GridBuffer, Session, Shape, StructureType, TerrainMapping, random_positions, simulate_step,
};

fn map() -> TerrainMapping {
    // One grid cell spans ten world tenths; world (0, 0) lands on cell
    // (128, 128).
    TerrainMapping { top_left_x: -1280, top_left_y: -1280, size_x: 2560, size_y: 2560 }
}

#[test]
fn fresh_session_state() {
    let s = Session::new(map());
    assert_eq!(s.ore_amount, 100);
    assert_eq!(s.frame_count, 0);
    assert!(s.can_consume_ore(100));
    assert!(!s.can_consume_ore(101));
}

#[test]
fn ore_purse_clamps_at_zero() {
    let mut s = Session::new(map());
    s.consume_ore(30);
    assert_eq!(s.ore_amount, 70);
    s.consume_ore(200);
    assert_eq!(s.ore_amount, 0);
}

#[test]
fn water_powers_irrigation_and_debit_depletes_it() {
    let mut s = Session::new(map());
    let water = s.add_structure(StructureType::Water, 0, 0, 1, None);
    assert_eq!(water, 1);
    let irr = s.add_structure(StructureType::Irrigation, 10, 0, 2, Some((100, 1)));
    assert_eq!(irr, 2);

    // Recomputation ran inside add_structure: the irrigator is powered from
    // the water, and the connecting pipe carries power.
    assert!(s.power.is_powered(2));
    assert_eq!(s.power.source_of(2), Some(1));
    assert!(s.power.pipe_powered(100));
    assert_eq!(s.registry.get_copy(1).amount(), 50);

    // Advance to the first water tick and run the resource pass: the water
    // loses exactly the per-tick debit of one unit.
    for _ in 0..30 {
        s.update_frame_count();
    }
    let upd = s.update_amounts().unwrap();
    assert_eq!(s.registry.get_copy(1).amount(), 49);
    assert!(upd.remaining_resource_amounts.contains(&(1, 49)));
    assert!(s.power.is_powered(2));

    // Drain the water down to one unit, then let the next tick finish it:
    // the depleted root stops powering its consumer.
    let _ = s.registry.mine(1, 48);
    assert_eq!(s.registry.get_copy(1).amount(), 1);
    for _ in 0..60 {
        s.update_frame_count();
    }
    let _ = s.update_amounts().unwrap();
    assert_eq!(s.registry.get_copy(1).amount(), 0);
    assert!(!s.power.is_powered(2));
    assert!(!s.power.pipe_powered(100));
}

#[test]
fn update_amounts_off_cadence_does_nothing() {
    let mut s = Session::new(map());
    s.add_structure(StructureType::Water, 0, 0, 1, None);
    s.update_frame_count();
    assert!(s.update_amounts().is_none());
}

#[test]
fn mining_harvests_ore_near_a_powered_irrigator() {
    let mut s = Session::new(map());
    s.add_structure(StructureType::Water, 0, 0, 1, None);
    s.add_structure(StructureType::Irrigation, 10, 0, 2, Some((100, 1)));
    // Within the irrigator's clean radius of 50 tenths.
    s.add_structure(StructureType::Ore, 20, 0, 3, None);
    // Outside it.
    s.add_structure(StructureType::Ore, 200, 0, 4, None);
    assert!(s.power.is_powered(2));

    // Frame 0 is a mining tick: the nearby ore is mined once by 5, and the
    // mine call reports the new remainder of 45 into the purse.
    let upd = s.update_amounts().unwrap();
    assert_eq!(s.registry.get_copy(3).amount(), 45);
    assert_eq!(s.registry.get_copy(4).amount(), 50);
    assert_eq!(s.ore_amount, 145);
    assert_eq!(upd.total_ore, 145);
    assert!(upd.remaining_resource_amounts.contains(&(3, 45)));
}

#[test]
fn blight_damages_and_removes_structures_and_their_pipes() {
    let mut s = Session::new(map());
    s.add_structure(StructureType::Water, -500, -500, 1, None);
    s.add_structure(StructureType::Pump, 0, 0, 2, Some((100, 1)));
    assert!(s.power.is_powered(2));

    // Publish a contaminated buffer around the pump's cell (128, 128).
    let mut g = GridBuffer::new();
    g.fill_shape(&Shape::Circle { row: 128, col: 128, radius: 4 }, 255);
    let _ = s.terrain.publish(g);

    // One tick of 1000 ms deals 1000 * 80 * 255 / 256 = 79687 thousandths.
    let r1 = s.update_blight(1000);
    assert!(r1.get_removed_pipe_ids().is_empty());
    assert!(s.registry.contains_id(2));
    assert!(s.registry.get_copy(2).is_alive());

    // The second tick destroys the pump and prunes its pipe.
    let r2 = s.update_blight(1000);
    assert_eq!(r2.removed_pipe_ids, vec![100]);
    assert!(!s.registry.contains_id(2));
    assert!(s.registry.contains_id(1));
}

#[test]
fn blight_leaves_immune_types_alone() {
    let mut s = Session::new(map());
    s.add_structure(StructureType::Water, 0, 0, 1, None);
    s.add_structure(StructureType::Ore, 10, 0, 2, None);
    let mut g = GridBuffer::new();
    g.fill_shape(&Shape::Circle { row: 128, col: 128, radius: 6 }, 255);
    let _ = s.terrain.publish(g);
    let r = s.update_blight(10_000);
    assert!(r.removed_pipe_ids.is_empty());
    assert!(s.registry.contains_id(1));
    assert!(s.registry.contains_id(2));
}

#[test]
fn powered_cleaners_queue_clean_commands() {
    let mut s = Session::new(map());
    // A freshly placed Water is powered and has a clean radius.
    s.add_structure(StructureType::Water, 0, 0, 1, None);
    assert_eq!(s.terrain.pending.len(), 0);
    let _ = s.update_blight(16);
    assert_eq!(s.terrain.pending.len(), 1);
    let (shape, value) = s.terrain.pending[0];
    assert_eq!(value, 0);
    assert_eq!(shape, Shape::Circle { row: 128, col: 128, radius: 1 });
}

#[test]
fn query_effect_radius_reports_radius_and_neighbours() {
    let mut s = Session::new(map());
    s.add_structure(StructureType::Irrigation, 0, 0, 1, None);
    s.add_structure(StructureType::Ore, 30, 0, 2, None);
    s.add_structure(StructureType::Ore, 60, 0, 3, None);
    let q = s.query_effect_radius(1);
    assert_eq!(q.radius, 50);
    assert!(q.get_affected_ids().contains(&2));
    assert!(!q.get_affected_ids().contains(&3));
    // A structure without a clean radius reports radius zero.
    let q2 = s.query_effect_radius(2);
    assert_eq!(q2.radius, 0);
    assert!(q2.affected_ids.is_empty());
}

#[test]
fn remove_structure_prunes_pipes_and_recomputes() {
    let mut s = Session::new(map());
    s.add_structure(StructureType::Water, 0, 0, 1, None);
    s.add_structure(StructureType::Pump, 10, 0, 2, Some((100, 1)));
    s.add_structure(StructureType::Irrigation, 20, 0, 3, Some((101, 2)));
    assert!(s.power.is_powered(3));
    let removed = s.remove_structure(2);
    assert_eq!(removed, vec![100, 101]);
    assert!(!s.registry.contains_id(2));
    assert!(!s.power.is_powered(3));
}

#[test]
fn load_structures_bulk_places_the_start_set() {
    let mut s = Session::new(map());
    let items = vec![
        (StructureType::Water, 0i64, 0i64, 1i64),
        (StructureType::Ore, 50, 0, 2),
        (StructureType::Ore, -50, 30, 3),
    ];
    s.load_structures(items);
    assert!(s.registry.contains_id(1));
    assert!(s.registry.contains_id(2));
    assert!(s.registry.contains_id(3));
    assert_eq!(s.registry.get_copy(2).amount(), 50);
    let near = s.registry.query_radius(0, 0, 60);
    assert!(near.contains(&1) && near.contains(&2) && near.contains(&3));
}

#[test]
fn random_positions_stay_in_the_start_area() {
    let v = random_positions(64);
    assert_eq!(v.len(), 64);
    for (x, y) in v {
        assert!((-400..400).contains(&x));
        assert!((-400..400).contains(&y));
    }
}

#[test]
fn terrain_batch_coalesces_by_shape_with_last_value_winning() {
    let mut s = Session::new(map());
    let a = Shape::Circle { row: 10, col: 10, radius: 2 };
    let b = Shape::Circle { row: 30, col: 30, radius: 1 };
    s.terrain.fill_shape(a, 10);
    s.terrain.fill_shape(b, 20);
    s.terrain.fill_shape(a, 99);
    assert_eq!(s.terrain.pending.len(), 2);
    assert_eq!(s.terrain.pending[0], (a, 99));
    assert_eq!(s.terrain.pending[1], (b, 20));
}

#[test]
fn a_background_cycle_applies_the_batch_and_publishes() {
    let mut s = Session::new(map());
    let shape = Shape::Circle { row: 100, col: 100, radius: 2 };
    s.terrain.fill_shape(shape, 200);
    // A worker cycle: take the batch, run the step on its own buffer, hand
    // the result back.
    let mut work = GridBuffer::new();
    let batch = std::mem::replace(&mut s.terrain.pending, Vec::new());
    simulate_step(&mut work, &batch);
    let leftover = s.terrain.publish(work);
    assert!(leftover.is_empty());
    assert_eq!(s.terrain.query_shape_avg(&shape), 200);
}
