use topogen::count_nrpr;
use topogen::glp::{deltas, states, GLPLoop, GLPLoopFree, GLPSubProc};
use topogen::graph::Graph0;
use topogen::gray::GrayCode;
use topogen::nrpr::{Move, NRPR};

fn gray_strings(n: usize) -> Vec<String> {
    // the expected literals list the highest position first, so reverse
    // the index-order rendering that `bits` gives
    let mut out = Vec::new();
    let mut it = states(GrayCode::new(n));
    while it.step() {
        out.push(it.current().bits().chars().rev().collect::<String>());
    }
    out
}

#[test]
fn gray_codes() {
    assert_eq!(gray_strings(2), vec!["00", "01", "11", "10"]);

    assert_eq!(
        gray_strings(3),
        vec!["000", "001", "011", "010", "110", "111", "101", "100"],
    );
}

fn diamond() -> Graph0 {
    let mut g = Graph0::new(4);
    g.add_edge(0, 1);
    g.add_edge(0, 2);
    g.add_edge(1, 3);
    g.add_edge(2, 3);
    g
}

/// The scanning and the threaded strategy, driven over the same kind of
/// sub-process, must produce identical delta sequences.
#[test]
fn strategies_agree_on_nrpr() {
    let mut scan_deltas: Vec<Move> = Vec::new();
    let mut proc1 = NRPR::new(&diamond());
    let mut scan = GLPLoop::start(proc1.size());
    while let Some(d) = scan.next(&mut proc1) {
        scan_deltas.push(d);
    }

    let mut thread_deltas: Vec<Move> = Vec::new();
    let mut proc2 = NRPR::new(&diamond());
    let mut thread = GLPLoopFree::start(proc2.size());
    while let Some(d) = thread.next(&mut proc2) {
        thread_deltas.push(d);
    }

    assert!(scan_deltas.len() > 0);
    assert_eq!(scan_deltas, thread_deltas);
}

#[test]
fn strategies_agree_on_gray() {
    let mut scan_count = 0usize;
    let mut proc1 = GrayCode::new(4);
    let mut scan = GLPLoop::start(proc1.size());
    let mut scan_bits: Vec<String> = vec![proc1.bits()];
    while let Some(()) = scan.next(&mut proc1) {
        scan_count += 1;
        scan_bits.push(proc1.bits());
    }

    let mut thread_count = 0usize;
    let mut proc2 = GrayCode::new(4);
    let mut thread = GLPLoopFree::start(proc2.size());
    let mut thread_bits: Vec<String> = vec![proc2.bits()];
    while let Some(()) = thread.next(&mut proc2) {
        thread_count += 1;
        thread_bits.push(proc2.bits());
    }

    assert_eq!(scan_count, 15);
    assert_eq!(thread_count, 15);
    assert_eq!(scan_bits, thread_bits);
}

/// The delta stream is reproducible: two runs over the same graph yield
/// the same edits in the same order.
#[test]
fn deltas_deterministic() {
    let mut first: Vec<Move> = Vec::new();
    let mut it = deltas(NRPR::new(&diamond()));
    while let Some(d) = it.next() {
        first.push(d);
    }

    let mut second: Vec<Move> = Vec::new();
    let mut it = deltas(NRPR::new(&diamond()));
    while let Some(d) = it.next() {
        second.push(d);
    }

    assert!(first.len() > 0);
    assert_eq!(first, second);
}

/// The counting entry point halves the raw transition count.
#[test]
fn count_halves_raw_transitions() {
    let mut n_deltas = 0usize;
    let mut it = deltas(NRPR::new(&diamond()));
    while let Some(_) = it.next() {
        n_deltas += 1;
    }
    assert_eq!(count_nrpr(diamond()), n_deltas / 2);
}

/// The state stream yields exactly one more snapshot than the delta stream
/// yields edits.
#[test]
fn states_count_deltas_plus_one() {
    let mut n_deltas = 0usize;
    let mut it = deltas(NRPR::new(&diamond()));
    while let Some(_) = it.next() {
        n_deltas += 1;
    }

    let mut n_states = 0usize;
    let mut st = states(NRPR::new(&diamond()));
    while st.step() {
        n_states += 1;
    }

    assert_eq!(n_states, n_deltas + 1);
}
