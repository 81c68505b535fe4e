use tree_status::reorder::ReorderBuffer;

fn run(order: &[usize]) -> (Vec<(usize, String)>, bool) {
    let mut buf = ReorderBuffer::new();
    let mut out = Vec::new();
    for &id in order {
        out.extend(buf.push(id, format!("r{id}")));
    }
    let empty = buf.is_empty();
    (out, empty)
}

fn expected(n: usize) -> Vec<(usize, String)> {
    (0..n).map(|i| (i, format!("r{i}"))).collect()
}

#[test]
fn in_order_arrivals_pass_straight_through() {
    let mut buf = ReorderBuffer::new();
    assert_eq!(buf.push(0, 'a'), vec![(0, 'a')]);
    assert_eq!(buf.push(1, 'b'), vec![(1, 'b')]);
    assert!(buf.is_empty());
}

#[test]
fn reversed_arrivals_come_out_ascending() {
    let (out, empty) = run(&[5, 4, 3, 2, 1, 0]);
    assert_eq!(out, expected(6));
    assert!(empty);
}

#[test]
fn shuffled_arrivals_come_out_ascending() {
    let (out, empty) = run(&[2, 0, 4, 1, 3, 6, 5]);
    assert_eq!(out, expected(7));
    assert!(empty);
}

#[test]
fn every_permutation_of_four() {
    let ids = [0usize, 1, 2, 3];
    for a in 0..4 {
        for b in 0..4 {
            for c in 0..4 {
                for d in 0..4 {
                    let p = [ids[a], ids[b], ids[c], ids[d]];
                    let mut seen = p.to_vec();
                    seen.sort();
                    seen.dedup();
                    if seen.len() == 4 {
                        let (out, empty) = run(&p);
                        assert_eq!(out, expected(4));
                        assert!(empty);
                    }
                }
            }
        }
    }
}

#[test]
fn held_results_wait_for_their_turn() {
    let mut buf = ReorderBuffer::new();
    assert!(buf.push(2, "c").is_empty());
    assert!(buf.push(1, "b").is_empty());
    assert!(!buf.is_empty());
    assert_eq!(buf.push(0, "a"), vec![(0, "a"), (1, "b"), (2, "c")]);
}

#[test]
fn finish_drains_after_a_missing_position() {
    let mut buf = ReorderBuffer::new();
    assert_eq!(buf.push(0, 10), vec![(0, 10)]);
    assert!(buf.push(4, 14).is_empty());
    assert!(buf.push(2, 12).is_empty());
    assert_eq!(buf.finish(), vec![(2, 12), (4, 14)]);
}

use tree_status::reorder::Sequencer;

#[test]
fn sequencer_hands_out_positions_in_claim_order() {
    let mut s = Sequencer::new();
    assert_eq!(s.claim("a"), (0, "a"));
    assert_eq!(s.claim("b"), (1, "b"));
    assert_eq!(s.claim("c"), (2, "c"));
}

use tree_status::reorder::reorder_arrivals;

#[test]
fn reorder_arrivals_reversed() {
    let arrivals: Vec<(usize, char)> = vec![(2, 'c'), (1, 'b'), (0, 'a')];
    assert_eq!(reorder_arrivals(arrivals), vec![(0, 'a'), (1, 'b'), (2, 'c')]);
}

#[test]
fn reorder_arrivals_shuffled() {
    let order = [3usize, 0, 5, 1, 4, 2];
    let arrivals: Vec<(usize, String)> = order.iter().map(|&i| (i, format!("r{i}"))).collect();
    assert_eq!(reorder_arrivals(arrivals), expected(6));
}

#[test]
fn reorder_arrivals_with_a_missing_position_and_a_repeat() {
    let arrivals = vec![(1, 'b'), (0, 'a'), (0, 'z'), (3, 'd')];
    assert_eq!(reorder_arrivals(arrivals), vec![(0, 'a'), (1, 'b'), (3, 'd')]);
}

#[test]
fn reorder_arrivals_empty() {
    assert_eq!(reorder_arrivals(Vec::<(usize, u8)>::new()), vec![]);
}
