use dice_primes::ast::AstNode;
use dice_primes::parse::{parse_dice, parse_level};
use dice_primes::search::{bfs, dfs, sort_dice};
use dice_primes::solver::{compute, leaves_vec, SolveError};
use dice_primes::targets::{pruned, targets_for, Targets};

fn trailing_value(s: &str) -> i64 {
    let marker = " = ";
    let pos = s.rfind(marker).expect("answer has no equals marker");
    s[pos + marker.len()..].parse().expect("floored value is not an integer")
}

#[test]
fn scenario_four_dice_level_two() {
    let out = compute("3|5|2|6", "2").unwrap();
    assert_ne!(out, "N/A");
    let v = trailing_value(&out);
    assert!(v == 11 || v == 13 || v == 17, "floored value {} misses the targets", v);
}

#[test]
fn scenario_four_dice_level_five() {
    let out = compute("3|5|2|6", "5").unwrap();
    if out != "N/A" {
        let v = trailing_value(&out);
        assert!(v == 43 || v == 47 || v == 53, "floored value {} misses the targets", v);
    }
}

#[test]
fn scenario_four_ones_reaches_three() {
    // One product of the four ones with a sum inside reaches the lowest
    // target: 1*(1+1+1) floors to 3.
    let out = compute("1|1|1|1", "1").unwrap();
    assert_ne!(out, "N/A");
    let v = trailing_value(&out);
    assert!(v == 3 || v == 5 || v == 7, "floored value {} misses the targets", v);
}

#[test]
fn scenario_two_ones_pruned() {
    assert_eq!(compute("1|1", "1").unwrap(), "N/A");
}

#[test]
fn scenario_level_zero_rejected() {
    assert_eq!(compute("3|5", "0"), Err(SolveError::InvalidLevel));
}

#[test]
fn scenario_level_twenty_eight_rejected() {
    assert_eq!(compute("3|5", "28"), Err(SolveError::InvalidLevel));
}

#[test]
fn scenario_level_beyond_table_rejected() {
    assert_eq!(compute("3|5", "10"), Err(SolveError::InvalidLevel));
}

#[test]
fn scenario_level_text_rejected() {
    assert_eq!(compute("3|5", "abc"), Err(SolveError::InvalidLevel));
}

#[test]
fn scenario_malformed_token_dropped() {
    let out = compute("3|x|2", "1").unwrap();
    assert_eq!(out, "(3+2) = 5");
}

#[test]
fn parse_dice_drops_bad_tokens() {
    assert_eq!(parse_dice("3|x|2"), vec![3, 2]);
}

#[test]
fn parse_dice_empty_text() {
    assert_eq!(parse_dice(""), Vec::<i64>::new());
}

#[test]
fn parse_dice_empty_token() {
    assert_eq!(parse_dice("3||2"), vec![3, 2]);
}

#[test]
fn parse_dice_signs_and_width() {
    assert_eq!(parse_dice("10|-2|+6"), vec![10, -2, 6]);
}

#[test]
fn parse_dice_overflowing_token_dropped() {
    assert_eq!(parse_dice("99999999999999999999999|4"), vec![4]);
}

#[test]
fn parse_level_plain() {
    assert_eq!(parse_level("7"), Some(7));
}

#[test]
fn parse_level_signed() {
    assert_eq!(parse_level("+7"), Some(7));
    assert_eq!(parse_level("-7"), Some(-7));
}

#[test]
fn parse_level_garbage() {
    assert_eq!(parse_level("7a"), None);
    assert_eq!(parse_level(""), None);
    assert_eq!(parse_level("99999999999999999999"), None);
}

#[test]
fn targets_of_first_level() {
    assert_eq!(targets_for(1), Targets { t0: 3, t1: 5, t2: 7 });
}

#[test]
fn targets_of_last_level() {
    assert_eq!(targets_for(9), Targets { t0: 101, t1: 103, t2: 107 });
}

#[test]
fn pruning_bound_cases() {
    assert!(pruned(&vec![1, 1], Targets { t0: 3, t1: 5, t2: 7 }));
    assert!(!pruned(&vec![3, 3], Targets { t0: 3, t1: 5, t2: 7 }));
    assert!(!pruned(&vec![1, 1, 1, 1], Targets { t0: 3, t1: 5, t2: 7 }));
    assert!(!pruned(&vec![1, 1, 1, 1, 1, 3], Targets { t0: 11, t1: 13, t2: 17 }));
}

#[test]
fn scenario_ones_feeding_a_product() {
    // The sum is 8 and the product 3, both below every target, yet
    // (1+1+1+1)*3+1 floors to 13: the search must run and find a hit.
    let out = compute("1|1|1|1|1|3", "2").unwrap();
    assert_ne!(out, "N/A");
    let v = trailing_value(&out);
    assert!(v == 11 || v == 13 || v == 17, "floored value {} misses the targets", v);
}

#[test]
fn sort_dice_orders() {
    assert_eq!(sort_dice(vec![5, 3, 6, 2]), vec![2, 3, 5, 6]);
}

#[test]
fn bfs_no_candidates_for_short_input() {
    assert!(bfs(vec![]).is_empty());
    assert!(bfs(vec![4]).is_empty());
}

#[test]
fn bfs_two_dice_gives_six_candidates() {
    let cands = bfs(vec![1, 2]);
    assert_eq!(cands.len(), 6);
    assert_eq!(cands[0].0.render(), "(2+1)");
    assert!(cands[0].1.is_empty());
    assert_eq!(cands[1].0.render(), "2*1");
}

#[test]
fn dfs_uses_every_die_once() {
    let found = dfs(AstNode::Num(3), vec![5, 2, 6], Targets { t0: 11, t1: 13, t2: 17 });
    let e = found.expect("a completion exists for these dice");
    let ls = sort_dice(leaves_vec(&e));
    assert_eq!(ls.len(), 4);
    assert_eq!(ls, vec![2, 3, 5, 6]);
    let q = e.evaluate().expect("a hit evaluates");
    let f = q.floor();
    assert!(f == 11 || f == 13 || f == 17);
}

#[test]
fn dfs_reports_failure() {
    let found = dfs(AstNode::Num(1), vec![1], Targets { t0: 101, t1: 103, t2: 107 });
    assert!(found.is_none());
}
