use music_select::error::SelectError;
use music_select::order::{order, stable_order, Candidate, OrderingMode};

fn stamped(path: &str, accessed: i128, created: i128, modified: i128) -> Candidate {
    Candidate {
        path: path.to_string(),
        accessed: Some(accessed),
        created: Some(created),
        modified: Some(modified),
    }
}

fn modified(path: &str, stamp: i128) -> Candidate {
    Candidate { path: path.to_string(), accessed: None, created: None, modified: Some(stamp) }
}

fn unread(path: &str) -> Candidate {
    Candidate { path: path.to_string(), accessed: None, created: None, modified: None }
}

fn paths(list: &[&str]) -> Vec<String> {
    list.iter().map(|p| p.to_string()).collect()
}

#[test]
fn mode_names_are_recognised() {
    assert_eq!(OrderingMode::parse("a"), OrderingMode::Accessed);
    assert_eq!(OrderingMode::parse("accessed"), OrderingMode::Accessed);
    assert_eq!(OrderingMode::parse("c"), OrderingMode::Created);
    assert_eq!(OrderingMode::parse("created"), OrderingMode::Created);
    assert_eq!(OrderingMode::parse("m"), OrderingMode::Modified);
    assert_eq!(OrderingMode::parse("modified"), OrderingMode::Modified);
}

#[test]
fn unknown_mode_names_mean_modified() {
    assert_eq!(OrderingMode::parse(""), OrderingMode::Modified);
    assert_eq!(OrderingMode::parse("A"), OrderingMode::Modified);
    assert_eq!(OrderingMode::parse("access"), OrderingMode::Modified);
    assert_eq!(OrderingMode::parse("newest"), OrderingMode::Modified);
}

#[test]
fn each_mode_reads_its_own_stamp() {
    let c = stamped("x", 1, 2, 3);
    assert_eq!(c.stamp_for(OrderingMode::Accessed), Some(1));
    assert_eq!(c.stamp_for(OrderingMode::Created), Some(2));
    assert_eq!(c.stamp_for(OrderingMode::Modified), Some(3));
    assert_eq!(unread("x").stamp_for(OrderingMode::Modified), None);
}

#[test]
fn sorts_oldest_first() {
    let list = vec![modified("new", 30), modified("old", 10), modified("mid", 20)];
    let got = order(&list, OrderingMode::Modified, true, None);
    assert_eq!(got, Ok(paths(&["old", "mid", "new"])));
}

#[test]
fn sorts_by_the_stamp_of_the_mode() {
    let list = vec![stamped("x", 3, 1, 2), stamped("y", 1, 2, 3), stamped("z", 2, 3, 1)];
    assert_eq!(order(&list, OrderingMode::Accessed, true, None), Ok(paths(&["y", "z", "x"])));
    assert_eq!(order(&list, OrderingMode::Created, true, None), Ok(paths(&["x", "y", "z"])));
    assert_eq!(order(&list, OrderingMode::Modified, true, None), Ok(paths(&["z", "x", "y"])));
}

#[test]
fn equal_stamps_keep_their_order() {
    let list = vec![
        modified("c", 7),
        modified("a", 7),
        modified("z", 1),
        modified("b", 7),
        modified("y", 9),
        modified("d", 7),
    ];
    let got = order(&list, OrderingMode::Modified, true, None);
    assert_eq!(got, Ok(paths(&["z", "c", "a", "b", "d", "y"])));
    let all_equal = vec![modified("3", 5), modified("1", 5), modified("2", 5)];
    assert_eq!(order(&all_equal, OrderingMode::Modified, true, None), Ok(paths(&["3", "1", "2"])));
}

#[test]
fn stamps_before_the_epoch_sort_first() {
    let list = vec![modified("after", 1), modified("before", -1), modified("at", 0)];
    let got = order(&list, OrderingMode::Modified, true, None);
    assert_eq!(got, Ok(paths(&["before", "at", "after"])));
}

#[test]
fn the_limit_cuts_after_sorting() {
    let list = vec![modified("new", 30), modified("old", 10), modified("mid", 20)];
    assert_eq!(order(&list, OrderingMode::Modified, true, Some(2)), Ok(paths(&["old", "mid"])));
    assert_eq!(order(&list, OrderingMode::Modified, true, Some(0)), Ok(paths(&[])));
    assert_eq!(
        order(&list, OrderingMode::Modified, true, Some(3)),
        Ok(paths(&["old", "mid", "new"]))
    );
    assert_eq!(
        order(&list, OrderingMode::Modified, true, Some(usize::MAX)),
        Ok(paths(&["old", "mid", "new"]))
    );
}

#[test]
fn the_limit_cuts_without_sorting_too() {
    let list = vec![modified("new", 30), modified("old", 10), modified("mid", 20)];
    assert_eq!(order(&list, OrderingMode::Modified, false, Some(2)), Ok(paths(&["new", "old"])));
    assert_eq!(
        order(&list, OrderingMode::Modified, false, None),
        Ok(paths(&["new", "old", "mid"]))
    );
}

#[test]
fn a_missing_stamp_is_a_metadata_error() {
    let list = vec![modified("a", 1), unread("b"), unread("c")];
    let got = order(&list, OrderingMode::Modified, true, None);
    assert_eq!(got, Err(SelectError::Metadata { path: "b".to_string() }));
    let got = order(&list, OrderingMode::Modified, true, Some(1));
    assert_eq!(got, Err(SelectError::Metadata { path: "b".to_string() }));
}

#[test]
fn only_the_stamp_of_the_mode_has_to_be_there() {
    let list = vec![modified("b", 2), modified("a", 1)];
    assert_eq!(order(&list, OrderingMode::Modified, true, None), Ok(paths(&["a", "b"])));
    assert_eq!(
        order(&list, OrderingMode::Created, true, None),
        Err(SelectError::Metadata { path: "b".to_string() })
    );
}

#[test]
fn no_stamp_is_needed_without_sorting() {
    let list = vec![unread("b"), unread("a")];
    assert_eq!(order(&list, OrderingMode::Modified, false, None), Ok(paths(&["b", "a"])));
}

#[test]
fn ordering_nothing_yields_nothing() {
    assert_eq!(order(&Vec::new(), OrderingMode::Modified, true, None), Ok(Vec::new()));
    assert_eq!(order(&Vec::new(), OrderingMode::Modified, false, Some(3)), Ok(Vec::new()));
}

#[test]
fn the_stable_order_lists_places() {
    assert_eq!(stable_order(&vec![30, 10, 20]), vec![1, 2, 0]);
    assert_eq!(stable_order(&vec![5, 5, 5]), vec![0, 1, 2]);
    assert_eq!(stable_order(&vec![2, 1, 2, 1]), vec![1, 3, 0, 2]);
    assert_eq!(stable_order(&Vec::new()), Vec::<usize>::new());
    assert_eq!(stable_order(&vec![i128::MAX, i128::MIN, 0]), vec![1, 2, 0]);
}

#[test]
fn the_stable_order_agrees_with_a_stable_sort() {
    let mut stamps: Vec<i128> = Vec::new();
    let mut seed: u64 = 12345;
    for _ in 0..200 {
        seed = seed.wrapping_mul(6364136223846793005).wrapping_add(1442695040888963407);
        stamps.push(((seed >> 33) % 17) as i128 - 8);
    }
    let mut expected: Vec<usize> = (0..stamps.len()).collect();
    expected.sort_by_key(|place| stamps[*place]);
    assert_eq!(stable_order(&stamps), expected);
}
