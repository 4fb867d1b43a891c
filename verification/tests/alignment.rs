use strdiff::engine::StrPair;
use strdiff::model::Costs;

#[test]
fn equal_pair_is_all_matches() {
    let mut sp = StrPair::new("ab", "ab");
    let dist = sp.edit_distance();
    assert_eq!(dist, 0);
    let al = sp.backtrace();
    assert_eq!(al.ops, vec!['=', '=']);
    assert_eq!(al.left, vec!['a', 'b']);
    assert_eq!(al.right, vec!['a', 'b']);
    assert_eq!(al.ops_line(), "= =");
    assert_eq!(al.left_line(), "a b");
    assert_eq!(al.right_line(), "a b");
}

#[test]
fn dropped_trailing_token() {
    let mut sp = StrPair::new("ab", "a");
    let dist = sp.edit_distance();
    assert_eq!(dist, 1);
    let al = sp.backtrace();
    assert_eq!(al.ops, vec!['=', '-']);
    assert_eq!(al.left, vec!['a', 'b']);
    assert_eq!(al.right, vec!['a', ' ']);
    assert_eq!(al.ops_line(), "= -");
    assert_eq!(al.left_line(), "a b");
    assert_eq!(al.right_line(), "a  ");
}

#[test]
fn kitten_sitting_default_costs() {
    let mut sp = StrPair::new("kitten", "sitting");
    assert_eq!(sp.edit_distance(), 5);
}

#[test]
fn self_distance_is_zero() {
    let mut sp = StrPair::new("abcdef", "abcdef");
    assert_eq!(sp.edit_distance(), 0);
    let al = sp.backtrace();
    assert!(al.ops.iter().all(|&c| c == '='));
}

#[test]
fn empty_against_nonempty() {
    let mut sp = StrPair::new("", "abc");
    assert_eq!(sp.edit_distance(), 3);
    let al = sp.backtrace();
    assert_eq!(al.ops, vec!['+', '+', '+']);
    assert_eq!(al.left, vec![' ', ' ', ' ']);
    assert_eq!(al.right, vec!['a', 'b', 'c']);
}

#[test]
fn nonempty_against_empty() {
    let mut sp = StrPair::new("abc", "");
    assert_eq!(sp.edit_distance(), 3);
    let al = sp.backtrace();
    assert_eq!(al.ops, vec!['-', '-', '-']);
    assert_eq!(al.left, vec!['a', 'b', 'c']);
    assert_eq!(al.right, vec![' ', ' ', ' ']);
}

#[test]
fn empty_against_empty() {
    let mut sp = StrPair::new("", "");
    assert_eq!(sp.edit_distance(), 0);
    let al = sp.backtrace();
    assert_eq!(al.ops.len(), 0);
    assert_eq!(al.ops_line(), "");
    assert_eq!(al.left_line(), "");
    assert_eq!(al.right_line(), "");
}

#[test]
fn symmetric_when_directional_costs_equal() {
    let costs = Costs::new(3, 3, 2);
    let mut fwd = StrPair::with_costs("ab", "a", costs);
    let mut bwd = StrPair::with_costs("a", "ab", costs);
    assert_eq!(fwd.edit_distance(), 3);
    assert_eq!(bwd.edit_distance(), 3);

    let default = Costs::new(1, 1, 2);
    let mut fwd2 = StrPair::with_costs("kitten", "sitting", default);
    let mut bwd2 = StrPair::with_costs("sitting", "kitten", default);
    assert_eq!(fwd2.edit_distance(), bwd2.edit_distance());
}

#[test]
fn asymmetric_when_directional_costs_differ() {
    let costs = Costs::new(1, 5, 10);
    let mut fwd = StrPair::with_costs("ab", "a", costs);
    let mut bwd = StrPair::with_costs("a", "ab", costs);
    assert_eq!(fwd.edit_distance(), 1);
    assert_eq!(bwd.edit_distance(), 3);
}

#[test]
fn alignment_length_within_bounds() {
    let mut sp = StrPair::new("kitten", "sitting");
    sp.edit_distance();
    let al = sp.backtrace();
    assert!(al.ops.len() >= 7);
    assert!(al.ops.len() <= 13);
    assert_eq!(al.ops.len(), 7);
    assert_eq!(al.left.len(), 7);
    assert_eq!(al.right.len(), 7);
}

#[test]
fn alignment_cost_sums_to_distance() {
    let mut sp = StrPair::new("kitten", "sitting");
    let dist = sp.edit_distance();
    let al = sp.backtrace();
    let total: u32 = al
        .ops
        .iter()
        .map(|&c| match c {
            '+' => 1,
            '-' => 1,
            '#' => 2,
            '=' => 0,
            _ => unreachable!(),
        })
        .sum();
    assert_eq!(total, dist);
}

#[test]
fn substitution_reported_with_hash() {
    let mut sp = StrPair::new("cat", "bat");
    assert_eq!(sp.edit_distance(), 2);
    let al = sp.backtrace();
    assert_eq!(al.ops, vec!['#', '=', '=']);
    assert_eq!(al.left, vec!['c', 'a', 't']);
    assert_eq!(al.right, vec!['b', 'a', 't']);
}

#[test]
fn skewed_costs_path_can_cost_more_than_distance() {
    // The backtrace compares raw neighbour values, not cost-adjusted
    // transitions, so with skewed costs the reconstructed path may cost
    // more than the optimal distance. This pins that behaviour down.
    let costs = Costs::new(3, 1, 1);
    let mut sp = StrPair::with_costs("ab", "ba", costs);
    let dist = sp.edit_distance();
    assert_eq!(dist, 2);
    let al = sp.backtrace();
    assert_eq!(al.ops, vec!['#', '-', '+']);
    let total: u32 = al
        .ops
        .iter()
        .map(|&c| match c {
            '+' => 3,
            '-' => 1,
            '#' => 1,
            '=' => 0,
            _ => unreachable!(),
        })
        .sum();
    assert_eq!(total, 5);
    assert!(total != dist);
}

#[test]
fn default_costs_match_explicit() {
    let d: Costs = Default::default();
    assert_eq!(d, Costs::new(1, 1, 2));
    let mut with_default = StrPair::with_costs("kitten", "sitting", d);
    let mut plain = StrPair::new("kitten", "sitting");
    assert_eq!(with_default.edit_distance(), plain.edit_distance());
}

#[test]
fn single_step_lines_have_no_separator() {
    let mut sp = StrPair::new("a", "b");
    assert_eq!(sp.edit_distance(), 2);
    let al = sp.backtrace();
    assert_eq!(al.ops_line(), "#");
    assert_eq!(al.left_line(), "a");
    assert_eq!(al.right_line(), "b");
}

#[test]
fn tokens_beyond_ascii() {
    let mut sp = StrPair::new("\u{3b1}\u{3b2}", "\u{3b1}\u{3b3}");
    assert_eq!(sp.edit_distance(), 2);
    let al = sp.backtrace();
    assert_eq!(al.ops, vec!['=', '#']);
}
