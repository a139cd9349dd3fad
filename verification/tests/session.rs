use nemo::error::CoreError;
use nemo::ffi::FfiError;
use nemo::privacy::PrivacyMode;
use nemo::session::{check_rehome, check_wakeup_frame, parse_privacy_mode, privacy_mode_name};

#[test]
fn privacy_modes_are_named_in_any_case() {
    assert_eq!(parse_privacy_mode("normal"), Ok(PrivacyMode::Normal));
    assert_eq!(parse_privacy_mode("Private"), Ok(PrivacyMode::Private));
    assert_eq!(parse_privacy_mode("HIGH"), Ok(PrivacyMode::High));
    assert_eq!(parse_privacy_mode("maXimum"), Ok(PrivacyMode::Maximum));
    assert_eq!(parse_privacy_mode("max"), Err(FfiError::Core("privacy mode".into())));
    assert_eq!(parse_privacy_mode(""), Err(FfiError::Core("privacy mode".into())));
    assert_eq!(parse_privacy_mode("normal "), Err(FfiError::Core("privacy mode".into())));
}

#[test]
fn privacy_mode_names_read_back() {
    for m in [PrivacyMode::Normal, PrivacyMode::Private, PrivacyMode::High, PrivacyMode::Maximum] {
        assert_eq!(parse_privacy_mode(&privacy_mode_name(m)), Ok(m));
    }
    assert_eq!(privacy_mode_name(PrivacyMode::High), "high");
}

#[test]
fn rehome_to_the_same_home_is_refused() {
    assert_eq!(check_rehome(&[1; 32], &[1; 32]), Err(CoreError::AlreadyRegistered));
    let mut other = [1u8; 32];
    other[31] = 2;
    assert_eq!(check_rehome(&[1; 32], &other), Ok(()));
}

#[test]
fn wakeup_frames_must_be_empty() {
    assert_eq!(check_wakeup_frame(&[]), Ok(()));
    assert_eq!(check_wakeup_frame(&[0]), Err(FfiError::Core("wakeup frame must be empty".into())));
}
