use blightcore::{Pipe, Structure, StructureType};

#[test]
fn defaults_follow_the_type_table() {
    let w = Structure::new(StructureType::Water, 0, 0, 1, 100_000);
    assert!(w.is_powered());
    assert_eq!(w.amount(), 50);
    assert_eq!(w.damage_radius(), None);
    assert_eq!(w.clean_radius(), Some(15));
    assert!(!w.can_be_powered());

    let o = Structure::new(StructureType::Ore, 0, 0, 2, 100_000);
    assert!(!o.is_powered());
    assert_eq!(o.amount(), 50);
    assert_eq!(o.damage_radius(), None);
    assert_eq!(o.clean_radius(), None);
    assert!(!o.can_be_powered());

    let p = Structure::new(StructureType::Pump, 0, 0, 3, 100_000);
    assert!(!p.is_powered());
    assert_eq!(p.damage_radius(), Some(10));
    assert_eq!(p.clean_radius(), None);
    assert!(p.can_be_powered());

    let irr = Structure::new(StructureType::Irrigation, 0, 0, 4, 100_000);
    assert!(!irr.is_powered());
    assert_eq!(irr.damage_radius(), Some(15));
    assert_eq!(irr.clean_radius(), Some(50));
    assert!(irr.can_be_powered());
}

#[test]
fn mine_amount_returns_new_remaining_when_it_fits() {
    let mut o = Structure::new(StructureType::Ore, 0, 0, 1, 100_000);
    // Remaining 50, mine 20: the report is the new remaining 30.
    assert_eq!(o.mine_amount(20), 30);
    assert_eq!(o.amount(), 30);
    // Mining exactly everything reports zero.
    assert_eq!(o.mine_amount(30), 0);
    assert_eq!(o.amount(), 0);
}

#[test]
fn mine_amount_clamps_at_zero_and_reports_what_was_taken() {
    let mut o = Structure::new(StructureType::Ore, 0, 0, 1, 100_000);
    let _ = o.mine_amount(45);
    assert_eq!(o.amount(), 5);
    // Asking for more than remains: the report is the old remaining 5 and
    // the remainder never goes below zero.
    assert_eq!(o.mine_amount(100), 5);
    assert_eq!(o.amount(), 0);
    assert_eq!(o.mine_amount(100), 0);
    assert_eq!(o.amount(), 0);
}

#[test]
fn deal_damage_lowers_health_and_clamps_at_zero() {
    let mut p = Structure::new(StructureType::Pump, 0, 0, 1, 1_000);
    assert!(p.is_alive());
    p.deal_damage(400);
    assert!(p.is_alive());
    p.deal_damage(400);
    assert!(p.is_alive());
    p.deal_damage(400);
    assert!(!p.is_alive());
    // Overkill stays at zero.
    p.deal_damage(400);
    assert!(!p.is_alive());
}

#[test]
fn set_powered_toggles_consumers() {
    let mut p = Structure::new(StructureType::Pump, 3, 4, 9, 100_000);
    assert!(!p.is_powered());
    p.set_powered(true);
    assert!(p.is_powered());
    p.set_powered(false);
    assert!(!p.is_powered());
}

#[test]
fn pipe_endpoints_are_canonicalized() {
    let a = Pipe::new(9, 5, 3);
    let b = Pipe::new(9, 3, 5);
    assert_eq!(a, b);
    assert_eq!(a.start_node_id(), 3);
    assert_eq!(a.end_node_id(), 5);
    assert_eq!(a.pipe_node_id(), 9);
}

#[test]
fn structure_getters_report_the_fields() {
    let s = Structure::new(StructureType::Water, -70, 35, 42, 100_000);
    assert_eq!(s.instance_id(), 42);
    assert_eq!(s.position(), (-70, 35));
    assert_eq!(s.ty(), StructureType::Water);
    assert!(s.is_alive());
}
