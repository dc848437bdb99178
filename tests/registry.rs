use neat::environment::Environment;
use neat::innovation_record;
use neat::network::Network;
use neat::activation::Activation;
use neat::state::{InnovationRecord, SpeciationManager, ThresholdAdjustment};

#[test]
fn connection_innovation_is_idempotent() {
    let mut rec = InnovationRecord::new();
    let a = rec.record_connection_innovation(0, 3);
    let b = rec.record_connection_innovation(1, 3);
    let a2 = rec.record_connection_innovation(0, 3);
    assert_eq!(a, 0);
    assert_eq!(b, 1);
    assert_eq!(a2, a);
    assert_eq!(rec.record_connection_innovation(2, 3), 2);
}

#[test]
fn node_split_is_idempotent_on_connection_id() {
    let mut rec = InnovationRecord::new();
    for _ in 0..4 {
        rec.record_node_innovation();
    }
    let c = rec.record_connection_innovation(0, 3);
    let first = rec.record_node_split(c, 0, 3);
    assert_eq!(first, (4, 1, 2));
    let again = rec.record_node_split(c, 0, 3);
    assert_eq!(again, first);
    // the key is the connection id alone
    let other_ends = rec.record_node_split(c, 1, 2);
    assert_eq!(other_ends, first);
    // the halves are registered as ordinary connections
    assert_eq!(rec.record_connection_innovation(0, 4), 1);
    assert_eq!(rec.record_connection_innovation(4, 3), 2);
    assert_eq!(rec.record_node_innovation(), 5);
}

#[test]
fn node_innovations_count_up() {
    let mut rec = InnovationRecord::new();
    assert_eq!(rec.record_node_innovation(), 0);
    assert_eq!(rec.record_node_innovation(), 1);
    assert_eq!(rec.record_node_innovation(), 2);
}

#[test]
fn split_reuses_existing_connection_ids() {
    let mut rec = InnovationRecord::new();
    let _ = rec.record_connection_innovation(0, 0);
    let c = rec.record_connection_innovation(5, 6);
    // node 0 is the split node; (0, 0) was registered before
    let t = rec.record_node_split(c, 0, 6);
    assert_eq!(t, (0, 0, 2));
}

#[test]
fn simple_record_numbers_pairs_in_order() {
    let mut rec = innovation_record::InnovationRecord::new();
    assert!(!rec.has_innovation(0, 1));
    assert_eq!(rec.new_innovation(0, 1), 0);
    assert_eq!(rec.new_innovation(2, 1), 1);
    assert_eq!(rec.new_innovation(0, 1), 0);
    assert!(rec.has_innovation(0, 1));
    assert!(!rec.has_innovation(1, 0));
    assert_eq!(rec.new_node_innovation(), 0);
    assert_eq!(rec.new_node_innovation(), 1);
    assert_eq!(rec.num_nodes(), 2);
}

#[test]
fn simple_record_with_reserved_nodes() {
    let mut rec = innovation_record::InnovationRecord::with_nodes(3);
    assert_eq!(rec.new_node_innovation(), 3);
}

#[test]
fn network_reserves_input_and_output_ids() {
    let net = Network::new(2, 1, Activation::Sigmoid);
    let _ = net;
}

#[test]
fn environment_keeps_its_sizes() {
    let e = Environment::new(3, 2);
    assert_eq!(e.input_size, 3);
    assert_eq!(e.output_size, 2);
}

#[test]
fn species_ids_count_up() {
    let mut m = SpeciationManager::new(1, 5);
    assert_eq!(m.new_species(), 2);
    assert_eq!(m.new_species(), 3);
    assert_eq!(m.target_species_count(), 5);
}

#[test]
fn threshold_steps() {
    let m = SpeciationManager::new(0, 5);
    assert_eq!(m.adjust_threshold(11), ThresholdAdjustment::Raise);
    assert_eq!(m.adjust_threshold(10), ThresholdAdjustment::Keep);
    assert_eq!(m.adjust_threshold(2), ThresholdAdjustment::Keep);
    assert_eq!(m.adjust_threshold(1), ThresholdAdjustment::Lower);
    assert_eq!(m.adjust_threshold(0), ThresholdAdjustment::Lower);
    let z = SpeciationManager::new(0, 0);
    assert_eq!(z.adjust_threshold(0), ThresholdAdjustment::Keep);
    assert_eq!(z.adjust_threshold(1), ThresholdAdjustment::Raise);
}

#[test]
fn threshold_stays_positive_under_steps() {
    // the factors 1.3 and 0.95 keep a positive threshold positive
    let m = SpeciationManager::new(0, 5);
    let mut t: f32 = 3.0;
    for n in [20usize, 1, 1, 7, 30, 0, 2] {
        match m.adjust_threshold(n) {
            ThresholdAdjustment::Raise => t *= 1.3,
            ThresholdAdjustment::Lower => t *= 0.95,
            ThresholdAdjustment::Keep => {}
        }
        assert!(t > 0.0);
    }
}
