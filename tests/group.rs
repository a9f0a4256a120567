use pica::group::{group_runs, run_end};

#[test]
fn empty_input_has_no_runs() {
    assert_eq!(group_runs(&vec![]), vec![]);
}

#[test]
fn runs_are_maximal_and_ordered() {
    assert_eq!(
        group_runs(&vec![1, 1, 2, 2, 2, 1]),
        vec![(0, 2), (2, 5), (5, 6)]
    );
}

#[test]
fn single_key_is_one_run() {
    assert_eq!(group_runs(&vec![7, 7, 7]), vec![(0, 3)]);
}

#[test]
fn run_end_stops_at_a_new_key() {
    let keys = vec![3, 3, 4, 4];
    assert_eq!(run_end(&keys, 0), 2);
    assert_eq!(run_end(&keys, 1), 2);
    assert_eq!(run_end(&keys, 2), 4);
}

#[test]
fn grouping_twice_gives_the_same_runs() {
    let keys = vec![5, 1, 1, 5, 5, 0];
    assert_eq!(group_runs(&keys), group_runs(&keys));
}
