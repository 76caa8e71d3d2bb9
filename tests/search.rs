use quantum_search::container::{QuantumComputer, QuantumState};
use quantum_search::search::{
    perturbs, quantum_binary_search, quantum_binary_search_with, PERTURB_THRESHOLD, STEP_LIMIT,
};
use rand::rngs::StdRng;
use rand::{Rng, SeedableRng};

fn container(values: &[i32]) -> QuantumComputer {
    let mut qubits = Vec::new();
    for v in values {
        qubits.push(QuantumState { value: *v, probability: 0 });
    }
    QuantumComputer::from_states(qubits)
}

#[test]
fn single_element_holding_target_is_found_at_zero() {
    for _ in 0..100 {
        let mut qc = container(&[5]);
        assert_eq!(quantum_binary_search(&mut qc, 5), Some(0));
    }
    let mut qc = container(&[5]);
    assert_eq!(quantum_binary_search_with(&mut qc, 5, &vec![true, true]), Some(0));
}

#[test]
fn absent_target_is_not_found() {
    for _ in 0..100 {
        let mut qc = container(&[1, 3, 5, 7, 9, 11, 13]);
        assert_eq!(quantum_binary_search(&mut qc, 4), None);
    }
}

#[test]
fn absent_target_is_not_found_under_constant_perturbation() {
    let mut qc = container(&[7, 7, 7, 7]);
    let flips = vec![true; STEP_LIMIT + 10];
    assert_eq!(quantum_binary_search_with(&mut qc, 1, &flips), None);
}

#[test]
fn empty_container_finds_nothing() {
    let mut qc = container(&[]);
    assert_eq!(quantum_binary_search(&mut qc, 0), None);
    let mut qc = container(&[]);
    assert_eq!(quantum_binary_search_with(&mut qc, 0, &vec![true]), None);
}

#[test]
fn sorted_container_without_perturbation_finds_target() {
    let mut qc = container(&[1, 3, 5, 7, 9]);
    assert_eq!(quantum_binary_search_with(&mut qc, 7, &vec![]), Some(3));
    let mut qc = container(&[1, 3, 5, 7, 9]);
    assert_eq!(quantum_binary_search_with(&mut qc, 1, &vec![]), Some(0));
    let mut qc = container(&[1, 3, 5, 7, 9]);
    assert_eq!(quantum_binary_search_with(&mut qc, 9, &vec![]), Some(4));
}

#[test]
fn perturbation_changes_the_index_found() {
    let mut qc = container(&[0, 0, 1, 0, 0]);
    assert_eq!(quantum_binary_search_with(&mut qc, 0, &vec![]), Some(0));
    let mut qc = container(&[0, 0, 1, 0, 0]);
    assert_eq!(quantum_binary_search_with(&mut qc, 0, &vec![true]), Some(1));
}

#[test]
fn unsorted_container_can_miss_present_target() {
    let mut qc = container(&[2, 9, 3]);
    assert_eq!(quantum_binary_search_with(&mut qc, 3, &vec![]), None);
}

#[test]
fn search_averages_weights_and_keeps_values() {
    let mut qc = QuantumComputer::from_states(vec![
        QuantumState { value: 1, probability: 10 },
        QuantumState { value: 3, probability: 50 },
        QuantumState { value: 5, probability: 30 },
    ]);
    // One step over the window [0, 2]: weights 0 and 2 are averaged, and the
    // midpoint 1 holds the target.
    assert_eq!(quantum_binary_search_with(&mut qc, 3, &vec![]), Some(1));
    assert_eq!(qc.qubits[0].probability, 20);
    assert_eq!(qc.qubits[1].probability, 50);
    assert_eq!(qc.qubits[2].probability, 20);
    let values: Vec<i32> = qc.qubits.iter().map(|q| q.value).collect();
    assert_eq!(values, vec![1, 3, 5]);
}

#[test]
fn seeded_container_of_thousand_reports_known_index_or_nothing() {
    let mut rng = StdRng::seed_from_u64(2030);
    let mut qubits = Vec::new();
    for _ in 0..1000 {
        qubits.push(QuantumState { value: rng.gen_range(0..1000), probability: rng.gen() });
    }
    let known: usize = 437;
    qubits[known].value = 5000;
    for _ in 0..50 {
        let mut qc = QuantumComputer::from_states(qubits.clone());
        let r = quantum_binary_search(&mut qc, 5000);
        assert!(r == Some(known) || r.is_none());
        assert_eq!(qc.len(), 1000);
    }
    for shift in 0..20usize {
        let flips: Vec<bool> = (0..64usize).map(|k| (k + shift) % 3 == 0).collect();
        let mut qc = QuantumComputer::from_states(qubits.clone());
        let r = quantum_binary_search_with(&mut qc, 5000, &flips);
        assert!(r == Some(known) || r.is_none());
    }
}

#[test]
fn random_search_reports_only_indices_holding_target() {
    for _ in 0..20 {
        let values: Vec<i32> = {
            let qc = QuantumComputer::new(200);
            qc.qubits.iter().map(|q| q.value).collect()
        };
        let mut qc = container(&values);
        if let Some(i) = quantum_binary_search(&mut qc, 48) {
            assert!(i < values.len());
            assert_eq!(values[i], 48);
        }
    }
}

#[test]
fn perturbs_below_threshold_only() {
    assert!(perturbs(0));
    assert!(perturbs(PERTURB_THRESHOLD - 1));
    assert!(!perturbs(PERTURB_THRESHOLD));
    assert!(!perturbs(u32::MAX));
}
