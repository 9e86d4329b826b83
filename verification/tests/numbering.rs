use logroller::numbering::largest_number_of;
use logroller::roller::LogRollerState;

fn names(given: &[&str]) -> Vec<String> {
    given.iter().map(|s| s.to_string()).collect()
}

fn next(given: &[&str], filename: &str) -> usize {
    let all = names(given);
    assert!(largest_number_of(&all, filename) < usize::MAX);
    LogRollerState::get_next_size_based_index(&all, filename)
}

#[test]
fn an_empty_directory_starts_with_one() {
    assert_eq!(next(&[], "app.log"), 1);
    assert_eq!(next(&["other.log.7", "app.log", "xapp.log.3"], "app.log"), 1);
}

#[test]
fn the_next_number_follows_the_largest() {
    assert_eq!(next(&["app.log", "app.log.1"], "app.log"), 2);
    assert_eq!(next(&["app.log.9", "app.log.10", "app.log.2"], "app.log"), 11);
}

#[test]
fn compressed_files_are_counted() {
    assert_eq!(next(&["app.log.1.gz"], "app.log"), 2);
    assert_eq!(next(&["app.log.1.gz", "app.log.4.xz", "app.log.2"], "app.log"), 5);
}

#[test]
fn what_is_no_number_is_not_counted() {
    assert_eq!(next(&["app.log.one", "app.log.", "app.log.-3", "app.log1"], "app.log"), 1);
    assert_eq!(next(&["app.log.+3"], "app.log"), 4);
    assert_eq!(next(&["app.log.2025-04-01"], "app.log"), 1);
    assert_eq!(next(&["app.log.99999999999999999999999"], "app.log"), 1);
}

#[test]
fn numbers_without_a_next_are_told() {
    let largest = format!("app.log.{}", usize::MAX);
    assert_eq!(largest_number_of(&names(&[&largest]), "app.log"), usize::MAX);
}

#[test]
fn a_missing_file_has_no_bytes() {
    assert_eq!(LogRollerState::get_curr_size_based_file_size(None), 0);
    assert_eq!(LogRollerState::get_curr_size_based_file_size(Some(17)), 17);
}
