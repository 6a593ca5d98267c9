use discogram::media::attachment_kind;
use discogram::model::{FileKind, PortalId};
use discogram::naming::{unicode_keycap, user_id_bot_name, user_id_tag};
use discogram::retry::{Attempt, Decision, RetryState};

#[test]
fn bot_names() {
    assert_eq!(user_id_tag(0), 0);
    assert_eq!(user_id_bot_name(0), "discogram_0_bot");
    assert_eq!(user_id_bot_name(1), "discogram_df9cbc72_bot");
    assert_eq!(user_id_bot_name(123456789012345678), "discogram_2faf83c1_bot");
}

#[test]
fn keycaps() {
    assert_eq!(unicode_keycap(0), "0\u{fe0f}\u{20e3}");
    assert_eq!(unicode_keycap(9), "9\u{fe0f}\u{20e3}");
}

#[test]
fn attachment_kinds() {
    assert_eq!(attachment_kind(Some("image/gif")), FileKind::Video);
    assert_eq!(attachment_kind(Some("video/mp4")), FileKind::Video);
    assert_eq!(attachment_kind(Some("image/png")), FileKind::Image);
    assert_eq!(attachment_kind(Some("audio/ogg")), FileKind::Audio);
    assert_eq!(attachment_kind(Some("application/pdf")), FileKind::Document);
    assert_eq!(attachment_kind(Some("image")), FileKind::Document);
    assert_eq!(attachment_kind(None), FileKind::Document);
}

#[test]
fn portal_raw_id() {
    assert_eq!(PortalId(7).raw(), 7);
}

#[test]
fn transient_failures_back_off_then_give_up() {
    let mut s = RetryState::new();
    let mut waits = Vec::new();
    loop {
        let (next, d) = s.next(Attempt::Transient);
        s = next;
        match d {
            Decision::RetryAfter(ms) => waits.push(ms),
            Decision::GiveUp => break,
            Decision::Done => panic!("a failure is never done"),
        }
    }
    assert_eq!(waits, vec![500, 1000, 2000, 4000, 8000]);
    assert_eq!(s.retries_left, 0);
}

#[test]
fn rate_limits_count_against_the_retries() {
    let mut s = RetryState::new();
    let mut waits = Vec::new();
    loop {
        let (next, d) = s.next(Attempt::RateLimited(3000));
        s = next;
        match d {
            Decision::RetryAfter(ms) => waits.push(ms),
            Decision::GiveUp => break,
            Decision::Done => panic!("a failure is never done"),
        }
    }
    assert_eq!(waits, vec![3000; 5]);
    assert_eq!(s.retries_left, 0);
}

#[test]
fn permanent_failures_and_success() {
    let s = RetryState::new();
    assert_eq!(s.next(Attempt::Permanent), (s, Decision::GiveUp));
    assert_eq!(s.next(Attempt::Succeeded), (s, Decision::Done));
}
