use fieldrun::certificate::{certify, decides_alone, hybrid_winner, keep_exact};
use fieldrun::knockout::{
    at_depth, breakable, confusion, find_rescue, knock_out, part, sweep_heads, Confusion, Rescue,
};
use fieldrun::mask_file::{mark_rows, marked_rows, mask_text, read_mask};
use fieldrun::routing::last_greatest;
use fieldrun::specialty::specialties;
use fieldrun::working_set::Circuit;

#[test]
fn a_lone_winner_needs_no_exact_scores() {
    assert!(decides_alone(10, &[9, 15, 3], 1));
    assert!(!decides_alone(10, &[10, 15, 3], 1));
    assert!(decides_alone(-5, &[7], 0));
    // The exact scores lie under the bounds, so the lone row wins.
    let full = [8, 12, 2];
    assert_eq!(last_greatest(&full), 1);
}

#[test]
fn a_head_certifies_the_winner() {
    let full = [5, 9, 7, 1];
    let bounds = [20, 10, 8, 4];
    let r = certify(&full, &bounds, &[1, 2, 3, 4]);
    assert_eq!(r.iter().map(|c| c.leader).collect::<Vec<_>>(), vec![0, 1, 1, 1]);
    assert_eq!(r.iter().map(|c| c.certain).collect::<Vec<_>>(), vec![false, true, true, true]);
    assert_eq!(last_greatest(&full), 1);
}

#[test]
fn a_certificate_takes_the_first_of_equal_scores() {
    // Both rows have the greatest score; the head knows the one that its order puts first.
    let full = [6, 6];
    let r = certify(&full, &[9, 8], &[2]);
    assert!(r[0].certain);
    assert_eq!(r[0].leader, 0);
    assert_eq!(last_greatest(&full), 1);
}

#[test]
fn exact_rows_put_the_decisions_right() {
    let decisions = [([1, 8, 3, 2], [9, 2, 3, 1]), ([4, 3, 2, 7], [1, 7, 2, 6])];
    let mut mask = vec![false; 4];
    let mut winners = Vec::new();
    for (full, bulk) in &decisions {
        winners.push(keep_exact(full, bulk, &mut mask));
    }
    assert_eq!(winners, vec![1, 3]);
    assert_eq!(mask, vec![true, true, false, true]);
    for ((full, bulk), w) in decisions.iter().zip(&winners) {
        assert_ne!(last_greatest(bulk), *w);
        assert_eq!(hybrid_winner(full, bulk, &mask), *w);
    }
}

#[test]
fn a_mask_is_written_and_read() {
    let mask = [false, true, false, true, true];
    let rows = marked_rows(&mask);
    assert_eq!(rows, vec![1, 3, 4]);
    let labels = vec!["\" the\"".to_string(), String::new(), "9\t7\r".to_string()];
    let text = mask_text(&rows, &labels, 3, 12);
    assert_eq!(text, "# residual mask: 3 rows, 3-trit bulk, 12 decisions\n1\t\" the\"\n3\t\n4\t9\t7\r\n");
    assert_eq!(read_mask(&text), rows);
    assert_eq!(mark_rows(&rows, 5), mask.to_vec());
    assert_eq!(mask_text(&[], &[], 1, 0), "# residual mask: 0 rows, 1-trit bulk, 0 decisions\n\n");
    assert!(read_mask(&mask_text(&[], &[], 1, 0)).is_empty());
}

#[test]
fn a_mask_is_read_leniently() {
    let text = "  # 5 is a remark\n 7\tx\n-2 y\nseven\n\n7\n3\n99999999999999999999 far\n+4";
    assert_eq!(read_mask(text), vec![-2, 3, 4, 7]);
    assert_eq!(mark_rows(&[-2, 3, 9], 4), vec![false, false, false, true]);
}

fn circuits() -> Vec<Circuit> {
    vec![
        Circuit { kind: 0, layer: 1, idx: 4 },
        Circuit { kind: 1, layer: 2, idx: 30 },
        Circuit { kind: 0, layer: 0, idx: 2 },
    ]
}

#[test]
fn circuits_are_parted() {
    assert_eq!(part(&circuits(), &[2, 1, 0]), (vec![(0, 2), (1, 4)], vec![(2, 30)]));
    assert_eq!(part(&circuits(), &[]), (vec![], vec![]));
}

#[test]
fn the_strongest_circuits_are_knocked_out_together() {
    // The model changes its mind only when the neuron and a head are both gone.
    let run = |h: &[(usize, usize)], n: &[(usize, usize)]| -> Option<i64> {
        if h.is_empty() || n.is_empty() { Some(5) } else { Some(6) }
    };
    assert_eq!(knock_out(&circuits(), &[10, 20, 30], &[1, 2, 3, 9], 5, &run), vec![false, true, true, true]);
    assert_eq!(knock_out(&circuits(), &[30, 10, 20], &[1, 2, 3], 5, &run), vec![false, false, true]);
    let silent = |_: &[(usize, usize)], _: &[(usize, usize)]| -> Option<i64> { None };
    assert_eq!(knock_out(&circuits(), &[1, 2, 3], &[1], 5, &silent), vec![true]);
}

#[test]
fn foretold_flips_are_counted() {
    let c = confusion(&[true, true, false, false, true], &[true, false, true, false, true]);
    assert!(c == Confusion { both: 2, neither: 1, foretold: 1, unforeseen: 1 });
}

#[test]
fn rescues_are_localized() {
    let run = |l: usize, attention: bool| -> Option<i64> { Some(if l == 3 && attention { 1 } else { 0 }) };
    let v = find_rescue(1, 5, 0, &run);
    assert!(v == vec![
        Rescue { layer: 2, attention: false, neurons: false },
        Rescue { layer: 3, attention: true, neurons: false },
        Rescue { layer: 4, attention: false, neurons: false },
    ]);
    let other = |l: usize, attention: bool| -> Option<i64> { Some(if l == 4 && !attention { 1 } else { 0 }) };
    let w = find_rescue(3, 5, 0, &other);
    assert!(w == vec![Rescue { layer: 4, attention: false, neurons: true }]);
    assert!(find_rescue(5, 5, 0, &run).is_empty());
    let sweeps = vec![v, w, Vec::new()];
    assert_eq!(breakable(&sweeps), (1, 1, 2));
    assert_eq!(at_depth(&sweeps, 1), (2, 0, 1));
    assert_eq!(at_depth(&sweeps, 2), (1, 1, 0));
    assert_eq!(at_depth(&sweeps, 4), (0, 0, 0));
}

#[test]
fn heads_are_swept_one_by_one() {
    let run = |l: usize, h: usize| -> Option<i64> { if l == 2 && h == 1 { None } else { Some(8) } };
    assert_eq!(sweep_heads(0, 3, 2, 8, &run), vec![vec![false, false], vec![false, true]]);
    assert!(sweep_heads(2, 3, 2, 8, &run).is_empty());
}

#[test]
fn experts_have_their_tokens() {
    let v = specialties(&[0, 2, 0, 0, 2, 0, 1], &[7, 5, 9, 7, 5, 3], 2);
    assert_eq!(v, vec![vec![(7, 2), (3, 1), (9, 1)], vec![], vec![(5, 2)]]);
    assert_eq!(v.iter().flatten().map(|x| x.1).sum::<usize>(), 6);
}
