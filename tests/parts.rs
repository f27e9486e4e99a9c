use crossings::parse::{parse_input, parse_line, parse_number, split_lines};
use crossings::search::{depth_first, depth_first_all, distances};
use crossings::{GraphError, Network, NodeID};

#[test]
fn numbers() {
    assert_eq!(parse_number(&b"0".to_vec()), Some(0));
    assert_eq!(parse_number(&b"4096".to_vec()), Some(4096));
    assert_eq!(parse_number(&b"".to_vec()), None);
    assert_eq!(parse_number(&b"12a".to_vec()), None);
    assert_eq!(parse_number(&b"-1".to_vec()), None);
    let too_big = format!("{}0", usize::MAX);
    assert_eq!(parse_number(&too_big.as_bytes().to_vec()), None);
    let max = format!("{}", usize::MAX);
    assert_eq!(parse_number(&max.as_bytes().to_vec()), Some(usize::MAX));
}

#[test]
fn lines_of_two_numbers() {
    assert_eq!(parse_line(&b"  3\t4 \r".to_vec()), Some((3, 4)));
    assert_eq!(parse_line(&b"10 20".to_vec()), Some((10, 20)));
    assert_eq!(parse_line(&b"1 2 3".to_vec()), None);
    assert_eq!(parse_line(&b"7".to_vec()), None);
    assert_eq!(parse_line(&b"".to_vec()), None);
}

#[test]
fn splitting_lines() {
    let ls = split_lines(&b"a\n\nbc\n".to_vec());
    assert_eq!(ls, vec![b"a".to_vec(), b"".to_vec(), b"bc".to_vec()]);
    let ls = split_lines(&b"x\ny".to_vec());
    assert_eq!(ls, vec![b"x".to_vec(), b"y".to_vec()]);
    assert!(split_lines(&b"".to_vec()).is_empty());
}

#[test]
fn whole_input() {
    let (n, streets) = parse_input(&b"3 2\r\n0 1\r\n2 0\r\n".to_vec()).unwrap();
    assert_eq!(n, 3);
    assert_eq!(streets, vec![(0, 1), (2, 0)]);
}

#[test]
fn streets_out_of_range() {
    let r = Network::from_streets(2, &vec![(0, 1), (1, 2)]);
    assert_eq!(r.err(), Some(GraphError::CrossingOutOfRange(1)));
    let g = Network::from_streets(2, &vec![(0, 1), (1, 1)]).unwrap();
    assert_eq!(g.adj_list, vec![vec![1], vec![1]]);
    assert_eq!(g.target_list, vec![vec![], vec![0, 1]]);
}

#[test]
fn network_from_lists() {
    let net = Network::new(vec![vec![1], vec![0]], vec![vec![1], vec![0]], 2);
    assert_eq!(net.find_sccs().1, vec![0, 0]);
    assert_eq!(net.num_crossings, 2);
}

#[test]
fn shortest_distances() {
    let adj = vec![vec![1, 2], vec![3], vec![3], vec![], vec![0]];
    let d = distances(&adj, 0);
    assert_eq!(d, vec![Some(0), Some(1), Some(1), Some(2), None]);
    let d = distances(&adj, 4);
    assert_eq!(d, vec![Some(1), Some(2), Some(2), Some(3), Some(0)]);
}

#[test]
fn depth_first_visits_what_is_reached() {
    let adj = vec![vec![1], vec![2], vec![], vec![0]];
    let ids = depth_first(&adj, 0);
    assert_eq!(ids[0], NodeID::Visited(0));
    assert!(ids[1].is_visited() && ids[2].is_visited());
    assert_eq!(ids[3], NodeID::Unvisited);
    let mut orders: Vec<usize> = ids.iter().filter(|i| i.is_visited()).map(|i| i.must_get()).collect();
    orders.sort();
    assert_eq!(orders, vec![0, 1, 2]);
}

#[test]
fn dfs_on_network() {
    let net = Network::from_streets(3, &vec![(0, 1), (1, 2)]).unwrap();
    let ids = net.dfs(1);
    assert_eq!(ids[1], NodeID::Visited(0));
    assert_eq!(ids[2], NodeID::Visited(1));
    assert!(!ids[0].is_visited());
}

#[test]
fn depth_first_is_preorder() {
    let adj = vec![vec![1, 2], vec![3], vec![], vec![]];
    let ids = depth_first(&adj, 0);
    assert_eq!(ids, vec![NodeID::Visited(0), NodeID::Visited(1), NodeID::Visited(3), NodeID::Visited(2)]);
    let adj = vec![vec![], vec![0], vec![1]];
    let ids = depth_first_all(&adj);
    assert_eq!(ids, vec![NodeID::Visited(0), NodeID::Visited(1), NodeID::Visited(2)]);
    let adj = vec![vec![2], vec![], vec![1]];
    let ids = depth_first_all(&adj);
    assert_eq!(ids, vec![NodeID::Visited(0), NodeID::Visited(2), NodeID::Visited(1)]);
}

#[test]
fn in_lists_keep_street_order() {
    let net = Network::from_reader(&b"3 4\n0 2\n1 2\n0 2\n2 0\n".to_vec()).unwrap();
    assert_eq!(net.adj_list, vec![vec![2, 2], vec![2], vec![0]]);
    assert_eq!(net.target_list, vec![vec![2], vec![], vec![0, 1, 0]]);
}
