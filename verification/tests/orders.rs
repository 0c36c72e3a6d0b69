use std::collections::HashSet;
use topogen::backtracking::Traversals;
use topogen::count_backtracking;
use topogen::glp::states;
use topogen::graph::{Graph, Graph0};
use topogen::nrpr::{toposorts, NRPR};

fn factorial(n: usize) -> usize {
    let mut result = 1;
    for i in 1..=n {
        result *= i;
    }
    result
}

fn binomial(n: usize, k: usize) -> usize {
    if k > n {
        return 0;
    }
    let k = k.min(n - k);
    let mut result = 1;
    for i in 0..k {
        result *= n - i;
        result /= i + 1;
    }
    result
}

fn collect_orders(g: Graph0) -> Vec<Vec<usize>> {
    let mut out = Vec::new();
    let mut ts = toposorts(g);
    while let Some(v) = ts.next() {
        out.push(v);
    }
    out
}

fn oracle_orders(g: Graph0) -> Vec<Vec<usize>> {
    let mut out = Vec::new();
    let mut t = Traversals::new(g);
    while let Some(v) = t.next() {
        out.push(v);
    }
    out
}

fn raw_state_count(g: &Graph0) -> usize {
    let mut st = states(NRPR::new(g));
    let mut count = 0;
    while st.step() {
        count += 1;
    }
    count
}

#[test]
fn test_0_edges() {
    for n in 2..7 {
        let g = Graph0::new(n);
        let ts = collect_orders(g).into_iter().collect::<HashSet<_>>();
        assert_eq!(ts.len(), factorial(n))
    }
}

/// One edge on `n` nodes rules out exactly the orders that reverse it.
#[test]
fn test_1_edge() {
    for n in 3..=6 {
        for &(v, w) in &[(0usize, 1usize), (1, 0), (0, n - 1), (n - 1, 1)] {
            let mut g = Graph0::new(n);
            g.add_edge(v, w);
            let ts = collect_orders(g).into_iter().collect::<HashSet<_>>();
            assert_eq!(ts.len(), factorial(n) - factorial(n - 2) * binomial(n, n - 2));
        }
    }
}

/// An empty graph has exactly one, empty, order.
#[test]
fn empty_graph_single_order() {
    let orders = collect_orders(Graph0::new(0));
    assert_eq!(orders, vec![Vec::<usize>::new()]);

    let orders = collect_orders(Graph0::new(1));
    assert_eq!(orders, vec![vec![0]]);
}

#[test]
fn two_nodes_no_edges() {
    let orders = collect_orders(Graph0::new(2)).into_iter().collect::<HashSet<_>>();
    let expect: HashSet<Vec<usize>> = vec![vec![0, 1], vec![1, 0]].into_iter().collect();
    assert_eq!(orders, expect);
}

#[test]
fn three_nodes_one_edge() {
    let mut g = Graph0::new(3);
    g.add_edge(0, 1);
    let orders = collect_orders(g);
    let distinct = orders.iter().cloned().collect::<HashSet<_>>();
    assert_eq!(orders.len(), distinct.len());
    assert_eq!(distinct.len(), 3);
    for o in &orders {
        let p0 = o.iter().position(|&x| x == 0).unwrap();
        let p1 = o.iter().position(|&x| x == 1).unwrap();
        assert!(p0 < p1);
    }
}

#[test]
fn three_nodes_no_edges() {
    let orders = collect_orders(Graph0::new(3));
    let distinct = orders.iter().cloned().collect::<HashSet<_>>();
    assert_eq!(orders.len(), 6);
    assert_eq!(distinct.len(), 6);
}

fn sample_graphs() -> Vec<Graph0> {
    let mut out = Vec::new();
    out.push(Graph0::new(0));
    out.push(Graph0::new(1));
    out.push(Graph0::new(4));

    let mut chain = Graph0::new(4);
    chain.add_edge(0, 1);
    chain.add_edge(1, 2);
    chain.add_edge(2, 3);
    out.push(chain);

    let mut diamond = Graph0::new(4);
    diamond.add_edge(0, 1);
    diamond.add_edge(0, 2);
    diamond.add_edge(1, 3);
    diamond.add_edge(2, 3);
    out.push(diamond);

    let mut fan = Graph0::new(5);
    fan.add_edge(0, 1);
    fan.add_edge(0, 2);
    fan.add_edge(0, 3);
    fan.add_edge(0, 4);
    out.push(fan);

    let mut layered = Graph0::new(6);
    layered.add_edge(0, 2);
    layered.add_edge(1, 2);
    layered.add_edge(2, 3);
    layered.add_edge(2, 4);
    layered.add_edge(3, 5);
    layered.add_edge(4, 5);
    out.push(layered);

    let mut skew = Graph0::new(5);
    skew.add_edge(4, 0);
    skew.add_edge(3, 0);
    skew.add_edge(4, 1);
    out.push(skew);

    out
}

/// The raw state stream visits exactly twice as many states as there are
/// distinct orders, and the filtered stream yields each order once.
#[test]
fn raw_states_twice_the_orders() {
    for g in sample_graphs() {
        let orders = collect_orders(g.clone());
        let distinct = orders.iter().cloned().collect::<HashSet<_>>();
        assert_eq!(orders.len(), distinct.len());
        assert_eq!(raw_state_count(&g), 2 * orders.len());
    }
}

/// Every yielded order is a permutation of the nodes that respects every
/// edge.
#[test]
fn orders_are_valid() {
    for g in sample_graphs() {
        let n = g.size();
        let edges = g.edges();
        for o in collect_orders(g) {
            assert_eq!(o.len(), n);
            let mut seen = vec![false; n];
            for &x in &o {
                assert!(x < n);
                assert!(!seen[x]);
                seen[x] = true;
            }
            for &(v, w) in &edges {
                let pv = o.iter().position(|&x| x == v).unwrap();
                let pw = o.iter().position(|&x| x == w).unwrap();
                assert!(pv < pw);
            }
        }
    }
}

/// Preprocessing is deterministic: two runs over the same graph produce
/// identical enumerations, state for state.
#[test]
fn construction_deterministic() {
    for g in sample_graphs() {
        let first = collect_orders(g.clone());
        let second = collect_orders(g);
        assert_eq!(first, second);
    }
}

/// The loopless enumeration and the brute-force oracle agree on the set of
/// orders.
#[test]
fn matches_oracle() {
    for g in sample_graphs() {
        let fast = collect_orders(g.clone()).into_iter().collect::<HashSet<_>>();
        let slow = oracle_orders(g).into_iter().collect::<HashSet<_>>();
        assert_eq!(fast, slow);
    }
}

/// The oracle's own count matches the factorial on edge-free graphs,
/// including the empty graph's one trivial order.
#[test]
fn oracle_counts_factorial() {
    for n in 0..6 {
        assert_eq!(count_backtracking(Graph0::new(n)), factorial(n));
    }
}

/// The oracle yields the empty graph's one trivial order, then stops.
#[test]
fn oracle_empty_graph() {
    let orders = oracle_orders(Graph0::new(0));
    assert_eq!(orders, vec![Vec::<usize>::new()]);
}
