use darwin_notify::NotifyError;
use darwin_notify::error::status_to_result;

#[test]
fn maps_every_documented_code_to_its_kind() {
    assert_eq!(NotifyError::from_u32(1), NotifyError::InvalidName);
    assert_eq!(NotifyError::from_u32(2), NotifyError::InvalidToken);
    assert_eq!(NotifyError::from_u32(3), NotifyError::InvalidPort);
    assert_eq!(NotifyError::from_u32(4), NotifyError::InvalidFile);
    assert_eq!(NotifyError::from_u32(5), NotifyError::InvalidSignal);
    assert_eq!(NotifyError::from_u32(6), NotifyError::InvalidRequest);
    assert_eq!(NotifyError::from_u32(7), NotifyError::NotAuthorized);
    assert_eq!(NotifyError::from_u32(8), NotifyError::OptDisabled);
    assert_eq!(NotifyError::from_u32(9), NotifyError::ServerNotFound);
    assert_eq!(NotifyError::from_u32(10), NotifyError::NullInput);
    assert_eq!(NotifyError::from_u32(1000000), NotifyError::Failed);
}

#[test]
fn code_zero_is_success_not_an_error() {
    assert_eq!(status_to_result(0), Ok(()));
}

#[test]
fn nonzero_codes_are_errors() {
    assert_eq!(status_to_result(1), Err(NotifyError::InvalidName));
    assert_eq!(status_to_result(10), Err(NotifyError::NullInput));
    assert_eq!(status_to_result(1000000), Err(NotifyError::Failed));
    assert_eq!(status_to_result(11), Err(NotifyError::Unknown));
}

#[test]
fn unrecognized_codes_fall_back_to_unknown() {
    assert_eq!(NotifyError::from_u32(0), NotifyError::Unknown);
    assert_eq!(NotifyError::from_u32(11), NotifyError::Unknown);
    assert_eq!(NotifyError::from_u32(999999), NotifyError::Unknown);
    assert_eq!(NotifyError::from_u32(1000001), NotifyError::Unknown);
    assert_eq!(NotifyError::from_u32(u32::MAX), NotifyError::Unknown);
}

#[test]
fn classification_is_total_over_wide_sweeps() {
    // No input may panic or escape the taxonomy; sweep the low range
    // densely and the rest of the 32-bit space in large strides.
    for code in 0u32..=2_000_000 {
        let kind = NotifyError::from_u32(code);
        let expected = match code {
            1 => NotifyError::InvalidName,
            2 => NotifyError::InvalidToken,
            3 => NotifyError::InvalidPort,
            4 => NotifyError::InvalidFile,
            5 => NotifyError::InvalidSignal,
            6 => NotifyError::InvalidRequest,
            7 => NotifyError::NotAuthorized,
            8 => NotifyError::OptDisabled,
            9 => NotifyError::ServerNotFound,
            10 => NotifyError::NullInput,
            1000000 => NotifyError::Failed,
            _ => NotifyError::Unknown,
        };
        assert_eq!(kind, expected);
    }
    let mut code: u64 = 2_000_001;
    while code <= u32::MAX as u64 {
        assert_eq!(NotifyError::from_u32(code as u32), NotifyError::Unknown);
        code += 999_983;
    }
    assert_eq!(NotifyError::from_u32(u32::MAX), NotifyError::Unknown);
}

#[test]
fn every_kind_has_a_description() {
    assert_eq!(NotifyError::Unknown.describe(), "unknown error, most certainly a bug");
    assert_eq!(NotifyError::InvalidName.describe(), "invalid name");
    assert_eq!(NotifyError::Failed.describe(), "internal failure");
    assert!(!NotifyError::ServerNotFound.describe().is_empty());
}
