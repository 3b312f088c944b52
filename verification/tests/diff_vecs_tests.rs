use jatch::diff::diff_vecs::{diff, longest_common_subsequence, VecDifference};
use jatch::{Number, Value};

fn num(n: u64) -> Value {
    Value::Number(Number::PosInt(n))
}

fn lcs_length(s1: &str, s2: &str) -> usize {
    let result = longest_common_subsequence(s1.as_bytes(), s2.as_bytes());
    result[s1.len()][s2.len()]
}

#[test]
fn should_compute_diffs() {
    let before = vec![num(1), num(2)];
    let after = vec![num(1)];

    let changes = diff(&before, &after);
    assert_eq!(changes, vec![VecDifference::Removal(num(2))]);
}

#[test]
fn should_compute_lcs_length() {
    assert_eq!(lcs_length("hello", "hello"), 5);
    assert_eq!(lcs_length("hello", "helloasdf"), 5);
    assert_eq!(lcs_length("hello", ""), 0);
    assert_eq!(lcs_length("", ""), 0);
    assert_eq!(lcs_length("abcbdab", "bdcaba"), 4);
}

#[test]
fn lcs_table_holds_every_prefix() {
    let grid = longest_common_subsequence("ab".as_bytes(), "ba".as_bytes());
    assert_eq!(grid, vec![vec![0, 0, 0], vec![0, 0, 1], vec![0, 1, 1]]);
}

#[test]
fn script_runs_from_the_ends_to_the_starts() {
    let before = vec![num(1), num(2), num(3)];
    let after = vec![num(2), num(4)];
    assert_eq!(
        diff(&before, &after),
        vec![
            VecDifference::Addition(num(4)),
            VecDifference::Removal(num(3)),
            VecDifference::Removal(num(1)),
        ]
    );
}

#[test]
fn script_prefers_an_addition_on_a_tie() {
    let before = vec![num(1)];
    let after = vec![num(2)];
    assert_eq!(
        diff(&before, &after),
        vec![VecDifference::Addition(num(2)), VecDifference::Removal(num(1))]
    );
}

#[test]
fn script_against_an_empty_sequence() {
    let some = vec![num(1), num(2)];
    assert_eq!(
        diff(&some, &[]),
        vec![VecDifference::Removal(num(2)), VecDifference::Removal(num(1))]
    );
    assert_eq!(
        diff(&[], &some),
        vec![VecDifference::Addition(num(2)), VecDifference::Addition(num(1))]
    );
    assert_eq!(diff(&[], &[]), vec![]);
    assert_eq!(diff(&some, &some), vec![]);
}
