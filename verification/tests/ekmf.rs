use navig18xx::ekmf::Matrix;

/// A six-node test case from
/// [CP-Algorithms](https://cp-algorithms.com/graph/edmonds_karp.html).
#[test]
fn six_node_network_1() {
    let expected_flow = 10;
    let mut cap = Matrix::square(6);
    cap.set((0, 1), 7);
    cap.set((0, 4), 4);
    cap.set((1, 2), 5);
    cap.set((1, 3), 3);
    cap.set((2, 5), 8);
    cap.set((3, 2), 3);
    cap.set((3, 5), 5);
    cap.set((4, 1), 3);
    cap.set((4, 3), 2);
    let (net_flow, flow_mat) = cap.max_flow_mat();
    println!("{:?}", flow_mat);
    assert_eq!(net_flow, expected_flow);
}

/// A six-node test case from
/// [INGInious](https://inginious.org/course/competitive-programming/graphs-maxflow).
#[test]
fn six_node_network_2() {
    let expected_flow = 6;
    let mut cap = Matrix::square(6);
    cap.set((0, 1), 4);
    cap.set((0, 4), 2);
    cap.set((1, 2), 4);
    cap.set((1, 3), 2);
    cap.set((2, 5), 3);
    cap.set((3, 2), 1);
    cap.set((3, 5), 1);
    cap.set((4, 3), 1);
    cap.set((4, 5), 3);
    let (net_flow, flow_mat) = cap.max_flow_mat();
    println!("{:?}", flow_mat);
    assert_eq!(net_flow, expected_flow);
}

/// A seven-node test case from
/// [Wikipedia](https://en.wikipedia.org/wiki/Edmonds%E2%80%93Karp_algorithm).
#[test]
fn seven_node_network() {
    let expected_flow = 5;
    let mut cap = Matrix::square(7);
    // Source connections (node A).
    cap.set((0, 1), 3);
    cap.set((0, 3), 3);
    // Internal connections (nodes B-F).
    cap.set((1, 2), 4);
    cap.set((2, 0), 3);
    cap.set((2, 3), 1);
    cap.set((2, 4), 2);
    cap.set((3, 4), 2);
    cap.set((3, 5), 6);
    cap.set((4, 1), 1);
    // Sink connections (nodes E and F).
    cap.set((4, 6), 1);
    cap.set((5, 6), 9);
    let (net_flow, flow_mat) = cap.max_flow_mat();
    println!("{:?}", flow_mat);
    assert_eq!(net_flow, expected_flow);
}

#[test]
fn flow_respects_capacities_and_leaves_the_capacities_unchanged() {
    let mut cap = Matrix::square(4);
    cap.set((0, 1), 2);
    cap.set((0, 2), 2);
    cap.set((1, 3), 1);
    cap.set((2, 3), 5);
    let (net_flow, flow) = cap.max_flow_mat();
    assert_eq!(net_flow, 3);
    for i in 0..4 {
        for j in 0..4 {
            assert!(flow.get((i, j)) <= cap.get((i, j)));
        }
    }
    assert_eq!(cap.get((2, 3)), 5);
    assert_eq!(flow.get((1, 3)) + flow.get((2, 3)), 3);
}

#[test]
fn no_path_means_no_flow() {
    let mut cap = Matrix::square(3);
    cap.set((0, 1), 4);
    assert_eq!(cap.max_flow(), 0);
    let single = Matrix::square(1);
    assert_eq!(single.rows(), 1);
    assert_eq!(single.cols(), 1);
}

#[test]
fn the_flow_matrix_carries_the_maximum_flow_found_in_place() {
    let mut cap = Matrix::square(4);
    cap.set((0, 1), 3);
    cap.set((0, 2), 2);
    cap.set((1, 2), 1);
    cap.set((1, 3), 2);
    cap.set((2, 3), 4);
    let (net_flow, flow_mat) = cap.max_flow_mat();
    let mut copy = cap.clone();
    assert_eq!(copy.max_flow(), net_flow);
    assert_eq!(net_flow, 5);
    // The flows respect the capacities and are conserved at nodes 1 and 2.
    for i in 0..4 {
        for j in 0..4 {
            assert!(flow_mat.get((i, j)) <= cap.get((i, j)));
        }
    }
    for v in 1..3 {
        let out: usize = (0..4).map(|j| flow_mat.get((v, j))).sum();
        let inflow: usize = (0..4).map(|j| flow_mat.get((j, v))).sum();
        assert_eq!(out, inflow);
    }
}
