use nemo::call::{check_gathered, relay_wait_step, take_unsent_ice, RelayWait};
use nemo::call::{trickle_step, TrickleStep};
use nemo::call::{fingerprint_from_sdp, fingerprints_match, verify_fingerprint};
use nemo::error::CoreError;

#[test]
fn fingerprint_normalizes_colons() {
    assert!(fingerprints_match("sha-256 AA:BB:CC", "sha-256 aabbcc"));
    assert!(!fingerprints_match("sha-256 aa", "sha-256 ab"));
}

#[test]
fn fingerprint_is_first_announced_line() {
    let sdp = "v=0\r\no=- 1 1 IN IP4 0.0.0.0\r\na=fingerprint:  \r\n  a=fingerprint: sha-256 AB:CD \r\na=fingerprint:sha-256 EF\r\n";
    assert_eq!(fingerprint_from_sdp(sdp).unwrap(), "sha-256 AB:CD");
}

#[test]
fn sdp_without_fingerprint_is_a_call_error() {
    assert!(matches!(fingerprint_from_sdp("v=0\na=group:BUNDLE 0\n"), Err(CoreError::Call(_))));
    assert!(matches!(fingerprint_from_sdp(""), Err(CoreError::Call(_))));
}

#[test]
fn verify_fingerprint_compares_claimed() {
    let sdp = "v=0\na=fingerprint:sha-256 AA:BB\n";
    assert!(verify_fingerprint(sdp, "sha-256 aabb").is_ok());
    assert_eq!(verify_fingerprint(sdp, "sha-256 aabc"), Err(CoreError::DtlsFingerprintMismatch));
    assert!(matches!(verify_fingerprint("v=0", "x"), Err(CoreError::Call(_))));
}

#[test]
fn trickle_steps() {
    assert_eq!(trickle_step(true, Some(vec!["a".into()]), false), TrickleStep::Stop);
    assert_eq!(trickle_step(false, None, false), TrickleStep::Stop);
    assert_eq!(trickle_step(false, Some(vec!["a".into()]), true), TrickleStep::Send(vec!["a".into()]));
    assert_eq!(trickle_step(false, Some(vec![]), false), TrickleStep::Wait);
    assert_eq!(trickle_step(false, Some(vec![]), true), TrickleStep::Stop);
}

#[test]
fn unsent_ice_is_taken_once_and_checked() {
    let all: Vec<String> = vec![
        "candidate:1 1 udp 1 10.0.0.1 3478 typ relay".into(),
        "candidate:2 1 udp 1 10.0.0.2 3478 typ relay".into(),
    ];
    let (r, sent) = take_unsent_ice(&all, 0, false);
    assert_eq!(r.unwrap(), all);
    assert_eq!(sent, 2);
    let (r, sent) = take_unsent_ice(&all, 2, false);
    assert!(r.unwrap().is_empty());
    assert_eq!(sent, 2);
    let mut more = all.clone();
    more.push("candidate:3 1 udp 1 192.168.1.2 5000 typ host".into());
    let (r, sent) = take_unsent_ice(&more, 2, false);
    assert_eq!(r.unwrap_err(), CoreError::DirectIceForbidden);
    assert_eq!(sent, 3);
    let (r, sent) = take_unsent_ice(&all, 0, true);
    assert_eq!(r.unwrap_err(), CoreError::DirectIceForbidden);
    assert_eq!(sent, 0);
}

#[test]
fn gathered_candidates_must_be_relay_and_present() {
    let relay = vec!["candidate:1 1 udp 1 10.0.0.1 3478 typ relay".to_string()];
    let host = vec!["candidate:1 1 udp 1 10.0.0.1 3478 typ HOST".to_string()];
    let sdp = "v=0\na=fingerprint:sha-256 AA:BB\n";
    assert_eq!(check_gathered(false, &relay, Some(sdp)), Ok("sha-256 AA:BB".to_string()));
    assert_eq!(check_gathered(true, &relay, Some(sdp)), Err(CoreError::DirectIceForbidden));
    assert_eq!(check_gathered(false, &host, Some(sdp)), Err(CoreError::DirectIceForbidden));
    assert_eq!(
        check_gathered(false, &Vec::new(), Some(sdp)),
        Err(CoreError::Call("no relay ICE candidates".into()))
    );
    assert_eq!(
        check_gathered(false, &relay, None),
        Err(CoreError::Call("missing local SDP".into()))
    );
    assert!(matches!(check_gathered(false, &relay, Some("v=0")), Err(CoreError::Call(_))));
}

#[test]
fn waiting_for_the_first_relay_candidate() {
    assert_eq!(relay_wait_step(true, 3, true, true), RelayWait::Fail(CoreError::DirectIceForbidden));
    assert_eq!(relay_wait_step(false, 1, false, false), RelayWait::Ready);
    assert_eq!(relay_wait_step(false, 1, true, true), RelayWait::Ready);
    assert_eq!(
        relay_wait_step(false, 0, true, true),
        RelayWait::Fail(CoreError::Call("no relay ICE candidates".into()))
    );
    assert_eq!(
        relay_wait_step(false, 0, false, true),
        RelayWait::Fail(CoreError::Call("ICE gathering timed out".into()))
    );
    assert_eq!(relay_wait_step(false, 0, false, false), RelayWait::Wait);
}

#[test]
fn wait_first_relay_returns_when_a_candidate_arrives() {
    let ice = vec!["candidate:1 1 udp 1 192.0.2.1 9 typ relay raddr 0.0.0.0 rport 0".to_string()];
    assert_eq!(relay_wait_step(false, ice.len(), false, false), RelayWait::Ready);
}

#[test]
fn wait_first_relay_fails_when_gathering_finishes_empty() {
    let err = relay_wait_step(false, 0, true, false);
    assert!(matches!(err, RelayWait::Fail(CoreError::Call(msg)) if msg.contains("no relay")));
}
