use darwin_notify::NotifyError;
use darwin_notify::outcome::check_outcome;
use darwin_notify::outcome::get_state_outcome;
use darwin_notify::outcome::register_outcome;
use darwin_notify::name::name_is_valid;

#[test]
fn check_maps_one_to_true() {
    assert_eq!(check_outcome(0, 1), Ok(true));
}

#[test]
fn check_maps_other_flags_to_false_on_success() {
    assert_eq!(check_outcome(0, 0), Ok(false));
    assert_eq!(check_outcome(0, 2), Ok(false));
    assert_eq!(check_outcome(0, i32::MAX), Ok(false));
}

#[test]
fn check_maps_error_codes_through_the_taxonomy() {
    assert_eq!(check_outcome(2, 1), Err(NotifyError::InvalidToken));
    assert_eq!(check_outcome(7, 0), Err(NotifyError::NotAuthorized));
}

#[test]
fn register_hands_back_the_written_token_on_success() {
    assert_eq!(register_outcome(0, 77), Ok(77));
    assert_eq!(register_outcome(0, -3), Ok(-3));
    assert_eq!(register_outcome(9, 77), Err(NotifyError::ServerNotFound));
    assert_eq!(register_outcome(123456, 77), Err(NotifyError::Unknown));
}

#[test]
fn get_state_hands_back_the_written_value_on_success() {
    assert_eq!(get_state_outcome(0, 0), Ok(0));
    assert_eq!(get_state_outcome(0, u64::MAX), Ok(u64::MAX));
    assert_eq!(get_state_outcome(2, 5), Err(NotifyError::InvalidToken));
}

#[test]
fn names_with_embedded_null_bytes_are_rejected() {
    assert!(!name_is_valid(b"a\0b"));
    assert!(!name_is_valid(b"\0"));
    assert!(!name_is_valid(b"tech.example.event\0"));
}

#[test]
fn names_without_null_bytes_are_accepted() {
    assert!(name_is_valid(b""));
    assert!(name_is_valid(b"a.b.c"));
    assert!(name_is_valid(b"tech.example.event"));
}
