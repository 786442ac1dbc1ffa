use blightcore::{PipeNetwork, StructureRegistry, StructureType};

fn registry_with_chain() -> StructureRegistry {
    // Water(1) --pipe 100-- Pump(2) --pipe 101-- Irrigation(3)
    let mut reg = StructureRegistry::new();
    reg.place(StructureType::Water, 0, 0, 1);
    reg.place(StructureType::Pump, 10, 0, 2);
    reg.place(StructureType::Irrigation, 20, 0, 3);
    reg
}

#[test]
fn power_flows_from_water_along_the_pipe_chain() {
    let mut reg = registry_with_chain();
    let mut net = PipeNetwork::new();
    net.add(100, 1, 2);
    net.add(101, 2, 3);
    let st = net.recompute_power(&reg);
    assert!(st.is_powered(2));
    assert!(st.is_powered(3));
    assert_eq!(st.source_of(3), Some(1));
    assert_eq!(st.source_of(2), Some(1));
    assert!(st.pipe_powered(100));
    assert!(st.pipe_powered(101));
    // The water root itself is not a consumer.
    assert!(!st.is_powered(1));

    // Removing the structure in the middle cuts the irrigator off.
    let removed = net.prune_structure(2);
    assert_eq!(removed, vec![100, 101]);
    reg.remove(2);
    let st2 = net.recompute_power(&reg);
    assert!(!st2.is_powered(3));
    assert!(!st2.is_powered(2));
    assert!(!st2.pipe_powered(100));
    assert!(!st2.pipe_powered(101));
}

#[test]
fn depleted_water_powers_nothing() {
    let mut reg = registry_with_chain();
    let mut net = PipeNetwork::new();
    net.add(100, 1, 2);
    net.add(101, 2, 3);
    // Drain the water completely.
    let _ = reg.mine(1, 50);
    let st = net.recompute_power(&reg);
    assert!(!st.is_powered(2));
    assert!(!st.is_powered(3));
    assert!(!st.pipe_powered(100));
}

#[test]
fn unconnected_consumers_stay_unpowered() {
    let reg = registry_with_chain();
    let mut net = PipeNetwork::new();
    net.add(101, 2, 3);
    let st = net.recompute_power(&reg);
    assert!(!st.is_powered(2));
    assert!(!st.is_powered(3));
    assert!(!st.pipe_powered(101));
}

#[test]
fn prune_removes_exactly_the_touching_pipes() {
    let mut net = PipeNetwork::new();
    net.add(100, 1, 2);
    net.add(101, 2, 3);
    net.add(102, 3, 4);
    let removed = net.prune_structure(2);
    assert_eq!(removed, vec![100, 101]);
    assert_eq!(net.count(), 1);
    // The surviving pipe still joins 3 and 4.
    let st = net.prune_structure(5);
    assert!(st.is_empty());
    assert_eq!(net.count(), 1);
}

#[test]
fn prune_on_untouched_structure_returns_empty() {
    let mut net = PipeNetwork::new();
    net.add(100, 1, 2);
    let removed = net.prune_structure(77);
    assert!(removed.is_empty());
    assert_eq!(net.count(), 1);
}

#[test]
fn radius_query_is_strict_on_the_boundary_and_includes_the_center() {
    let mut reg = StructureRegistry::new();
    reg.place(StructureType::Ore, 0, 0, 1);  // the exact centre
    reg.place(StructureType::Ore, 10, 0, 2);  // exactly on the boundary
    reg.place(StructureType::Ore, 9, 0, 3);  // strictly inside
    reg.place(StructureType::Ore, 7, 8, 4);  // just outside (49 + 64 > 100)
    reg.place(StructureType::Ore, -6, -7, 5);  // inside (36 + 49 < 100)
    let ids = reg.query_radius(0, 0, 10);
    assert!(ids.contains(&1));
    assert!(!ids.contains(&2));
    assert!(ids.contains(&3));
    assert!(!ids.contains(&4));
    assert!(ids.contains(&5));
}

#[test]
fn radius_query_zero_radius_is_empty() {
    let mut reg = StructureRegistry::new();
    reg.place(StructureType::Ore, 0, 0, 1);
    // Even the centre point is excluded by the strict comparison.
    let ids = reg.query_radius(0, 0, 0);
    assert!(ids.is_empty());
}

#[test]
fn registry_remove_drops_the_structure() {
    let mut reg = registry_with_chain();
    assert!(reg.contains_id(2));
    assert!(reg.remove(2));
    assert!(!reg.contains_id(2));
    assert!(!reg.remove(2));
    assert!(reg.contains_id(1) && reg.contains_id(3));
    // The spatial index is pruned too.
    let ids = reg.query_radius(10, 0, 2);
    assert!(ids.is_empty());
}

#[test]
fn first_reaching_root_claims_a_shared_consumer() {
    // Two waters both connected to one pump; the pump is powered and its
    // recorded source is one of the two.
    let mut reg = StructureRegistry::new();
    reg.place(StructureType::Water, 0, 0, 1);
    reg.place(StructureType::Water, 20, 0, 2);
    reg.place(StructureType::Pump, 10, 0, 3);
    let mut net = PipeNetwork::new();
    net.add(100, 1, 3);
    net.add(101, 2, 3);
    let st = net.recompute_power(&reg);
    assert!(st.is_powered(3));
    let src = st.source_of(3).unwrap();
    assert!(src == 1 || src == 2);
}
