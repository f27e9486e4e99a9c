use crossings::classify::{strong_counts, strong_crossings, variability};
use crossings::{AnalysisError, InputError, Network, Output};

fn run_text(text: &str) -> Result<Output, AnalysisError> {
    let net = Network::from_reader(&text.as_bytes().to_vec()).unwrap();
    net.run()
}

fn out(count: usize, variability: usize, cost: usize) -> Output {
    Output { num_prospective_crossings: count, variability, cost }
}

#[test]
fn single_isolated_crossing() {
    assert_eq!(run_text("1 0\n"), Ok(out(1, 0, 0)));
}

#[test]
fn two_isolated_crossings() {
    assert_eq!(run_text("2 0\n"), Ok(out(2, 0, 0)));
}

#[test]
fn three_crossing_cycle() {
    assert_eq!(run_text("3 3\n0 1\n1 2\n2 0\n"), Ok(out(3, 2, 9)));
}

#[test]
fn self_loop_is_strong_with_zero_cost() {
    let net = Network::from_reader(&b"1 1\n0 0\n".to_vec()).unwrap();
    let (_, group) = net.find_sccs();
    let strong = strong_crossings(&net, &group);
    assert_eq!(strong, vec![true]);
    assert_eq!(net.run(), Ok(out(1, 0, 0)));
}

#[test]
fn no_crossings_gives_zero_cost() {
    assert_eq!(run_text("0 0\n"), Ok(out(0, 0, 0)));
}

#[test]
fn running_twice_gives_same_output() {
    let text = "5 6\n0 1\n1 0\n1 2\n2 1\n2 3\n3 4\n";
    let first = run_text(text);
    let second = run_text(text);
    assert_eq!(first, second);
    assert!(first.is_ok());
}

#[test]
fn two_cycles_and_a_bridge() {
    // {0,1} leaves by 1 -> 2, so only 0 is strong there; {2,3} is a sink group.
    let text = "4 5\n0 1\n1 0\n1 2\n2 3\n3 2\n";
    let net = Network::from_reader(&text.as_bytes().to_vec()).unwrap();
    let (_, group) = net.find_sccs();
    assert_eq!(group, vec![0, 0, 2, 2]);
    let strong = strong_crossings(&net, &group);
    assert_eq!(strong, vec![true, false, true, true]);
    let counts = strong_counts(&group, &strong);
    assert_eq!(counts, vec![1, 0, 2, 0]);
    // Crossings 2 and 3: variability 1, cost 2 * 1 + 1 = 3 each.
    assert_eq!(net.run(), Ok(out(2, 1, 3)));
}

#[test]
fn missing_return_cost_is_reported() {
    // Group {0,1,2,3,4}; 4 leaves the group, so the only way from 2 back to 0
    // passes a crossing that is not strong.
    let text = "6 7\n0 1\n1 0\n1 2\n2 3\n3 4\n4 0\n4 5\n";
    assert_eq!(run_text(text), Err(AnalysisError::MissingReturnCost));
}

#[test]
fn partition_follows_mutual_reachability() {
    let text = "6 7\n0 1\n1 2\n2 0\n2 3\n3 4\n4 3\n5 5\n";
    let net = Network::from_reader(&text.as_bytes().to_vec()).unwrap();
    let (_, group) = net.find_sccs();
    assert_eq!(group, vec![0, 0, 0, 3, 3, 5]);
}

#[test]
fn dead_end_is_strong() {
    let net = Network::from_reader(&b"3 2\n0 1\n1 2\n".to_vec()).unwrap();
    let (_, group) = net.find_sccs();
    assert_eq!(group, vec![0, 1, 2]);
    let strong = strong_crossings(&net, &group);
    assert_eq!(strong, vec![false, false, true]);
}

#[test]
fn variability_defaults_to_zero() {
    let group = vec![0, 0, 2];
    let counts = vec![0, 0, 1];
    assert_eq!(variability(&counts, &group, 0), 0);
    assert_eq!(variability(&counts, &group, 2), 0);
    let counts = vec![3, 0, 1];
    assert_eq!(variability(&counts, &group, 1), 2);
}

#[test]
fn costs_on_a_cycle() {
    let net = Network::from_reader(&b"3 3\n0 1\n1 2\n2 0\n".to_vec()).unwrap();
    let (_, group) = net.find_sccs();
    let strong = strong_crossings(&net, &group);
    let table = net.compute_cost(&group, &strong);
    assert_eq!(table[0], vec![Some(3), Some(1), Some(2)]);
    assert_eq!(table[2][0], Some(1));
    assert_eq!(table[1][0], Some(2));
}

#[test]
fn costs_only_for_strong_crossings() {
    let net = Network::from_reader(&b"3 3\n0 1\n1 0\n1 2\n".to_vec()).unwrap();
    let (_, group) = net.find_sccs();
    let strong = strong_crossings(&net, &group);
    assert_eq!(strong, vec![true, false, true]);
    let table = net.compute_cost(&group, &strong);
    assert_eq!(table[1], vec![None, None, None]);
    assert_eq!(table[0], vec![None, None, None]);
    assert_eq!(table[2], vec![None, None, None]);
}

#[test]
fn input_errors() {
    assert_eq!(Network::from_reader(&b"".to_vec()).err(), Some(InputError::MissingHeader));
    assert_eq!(Network::from_reader(&b"1\n".to_vec()).err(), Some(InputError::MalformedLine(0)));
    assert_eq!(Network::from_reader(&b"2 1\n0 x\n".to_vec()).err(), Some(InputError::MalformedLine(1)));
    assert_eq!(Network::from_reader(&b"2 1\n0 1 1\n".to_vec()).err(), Some(InputError::MalformedLine(1)));
    assert_eq!(
        Network::from_reader(&b"2 2\n0 1\n0 2\n".to_vec()).err(),
        Some(InputError::CrossingOutOfRange(2))
    );
}

#[test]
fn groups_are_named_by_discovery_order() {
    let net = Network::from_reader(&b"4 4\n0 2\n2 3\n3 1\n1 3\n".to_vec()).unwrap();
    let (ids, group) = net.find_sccs();
    let orders: Vec<usize> = ids.iter().map(|i| i.must_get()).collect();
    assert_eq!(orders, vec![0, 3, 1, 2]);
    assert_eq!(group, vec![0, 2, 1, 2]);
}

#[test]
fn costs_skip_crossings_that_leave_the_group() {
    let net = Network::from_reader(&b"4 4\n0 1\n1 2\n2 0\n2 3\n".to_vec()).unwrap();
    let (_, group) = net.find_sccs();
    let strong = strong_crossings(&net, &group);
    assert_eq!(strong, vec![true, true, false, true]);
    let table = net.compute_cost(&group, &strong);
    assert_eq!(table[0], vec![None, Some(1), None, None]);
    assert_eq!(table[1], vec![None, None, None, None]);
    assert_eq!(table[2], vec![None, None, None, None]);
    assert_eq!(table[3], vec![None, None, None, None]);
}

#[test]
fn lone_crossings_have_empty_rows() {
    for text in ["1 0\n", "2 0\n"] {
        let net = Network::from_reader(&text.as_bytes().to_vec()).unwrap();
        let (_, group) = net.find_sccs();
        let strong = strong_crossings(&net, &group);
        let table = net.compute_cost(&group, &strong);
        for row in table {
            assert!(row.iter().all(|e| e.is_none()));
        }
    }
}

#[test]
fn self_loop_costs_one() {
    let net = Network::from_reader(&b"1 1\n0 0\n".to_vec()).unwrap();
    let (_, group) = net.find_sccs();
    let strong = strong_crossings(&net, &group);
    let table = net.compute_cost(&group, &strong);
    assert_eq!(table[0], vec![Some(1)]);
}

#[test]
fn counting_components() {
    let net = Network::from_reader(&b"6 7\n0 1\n1 2\n2 0\n2 3\n3 4\n4 3\n5 5\n".to_vec()).unwrap();
    let (ids, group) = net.find_sccs();
    assert_eq!(net.component_count(&ids, &group), 3);
}
