use emergency_mail::mailbox::{
    idle_event, poll_finished, IMAPConnection, IMAPIdleError, IdleDecision, IdleEvent,
    IdleRetries,
};
use emergency_mail::message::Message;

fn mail(seq: u32, text: Option<&str>) -> Message {
    Message {
        uid: Some(seq + 100),
        seq,
        header: Some(b"Content-Type: text/plain\r\n".to_vec()),
        text: text.map(|t| t.as_bytes().to_vec()),
    }
}

#[test]
fn cursor_starts_at_selected_count() {
    let conn = IMAPConnection::new(5);
    assert_eq!(conn.most_current_id(), 5);
    assert_eq!(conn.next_unseen_id(), Some(6));
    assert_eq!(IMAPConnection::new(u32::MAX).next_unseen_id(), None);
}

#[test]
fn load_since_delivers_in_order_and_advances() {
    let mut conn = IMAPConnection::new(5);
    let fetched = vec![mail(6, Some("a")), mail(7, None), mail(8, Some("b"))];
    let bodies = conn.load_since(6, fetched);
    assert_eq!(bodies, vec![Some("a".to_string()), Some("b".to_string())]);
    assert_eq!(conn.most_current_id(), 8);
}

#[test]
fn cursor_never_decreases_and_fetches_do_not_repeat() {
    let mut conn = IMAPConnection::new(5);
    let first = conn.load_since(6, vec![mail(6, Some("a")), mail(7, Some("b"))]);
    assert_eq!(first.len(), 2);
    let c1 = conn.most_current_id();
    assert_eq!(c1, 7);
    // a server answers `8:*` with its last message when nothing newer exists
    let second = conn.load_since(conn.next_unseen_id().unwrap(), vec![mail(7, Some("b"))]);
    assert!(second.is_empty());
    assert_eq!(conn.most_current_id(), 7);
    let third = conn.load_since(8, vec![mail(3, Some("old")), mail(9, Some("c"))]);
    assert_eq!(third, vec![Some("c".to_string())]);
    assert!(conn.most_current_id() >= c1);
    assert_eq!(conn.most_current_id(), 9);
}

#[test]
fn message_without_plain_text_is_delivered_as_none() {
    let mut conn = IMAPConnection::new(0);
    let mut m = mail(1, Some("x"));
    m.text = Some(vec![0xff]);
    assert_eq!(conn.load_since(1, vec![m]), vec![None]);
    assert_eq!(conn.most_current_id(), 1);
}

#[test]
fn new_mail_is_noticed_beyond_cursor_only() {
    let conn = IMAPConnection::new(5);
    assert!(!conn.has_new_mail(&vec![mail(5, None)]));
    assert!(conn.has_new_mail(&vec![mail(6, None)]));
    let mut headerless = mail(9, None);
    headerless.header = None;
    assert!(!conn.has_new_mail(&vec![headerless]));
    assert!(!conn.has_new_mail(&vec![]));
}

#[test]
fn since_set_is_open_ended() {
    assert_eq!(IMAPConnection::since_set(6), "6:*");
    assert_eq!(IMAPConnection::since_set(1234), "1234:*");
}

#[test]
fn idle_events() {
    assert_eq!(idle_event(5, IdleEvent::Exists(7)), (7, false));
    assert_eq!(idle_event(5, IdleEvent::Exists(3)), (5, false));
    assert_eq!(idle_event(5, IdleEvent::Recent(2)), (5, true));
    assert_eq!(idle_event(5, IdleEvent::Other), (5, true));
}

#[test]
fn retries_escalate_after_three_initialisation_errors() {
    let mut r = IdleRetries::new();
    let init = Err(IMAPIdleError::InitialisationError);
    assert_eq!(r.after_wait(&init), IdleDecision::WaitAgain);
    assert_eq!(r.after_wait(&init), IdleDecision::WaitAgain);
    assert_eq!(r.after_wait(&init), IdleDecision::WaitAgain);
    assert_eq!(r.after_wait(&init), IdleDecision::Reconnect);
}

#[test]
fn lost_connection_resets_retries() {
    let mut r = IdleRetries::new();
    let init = Err(IMAPIdleError::InitialisationError);
    assert_eq!(r.after_wait(&init), IdleDecision::WaitAgain);
    assert_eq!(r.after_wait(&init), IdleDecision::WaitAgain);
    assert_eq!(r.after_wait(&init), IdleDecision::WaitAgain);
    assert_eq!(r.after_wait(&Err(IMAPIdleError::ConnectionError)), IdleDecision::WaitAgain);
    assert_eq!(r.after_wait(&init), IdleDecision::WaitAgain);
    assert_eq!(r.after_wait(&Ok(4)), IdleDecision::Fetch);
}

#[test]
fn polling_stops_on_mail_or_error() {
    assert!(!poll_finished(&Ok(vec![])));
    assert!(poll_finished(&Ok(vec![None])));
    assert!(poll_finished(&Err(())));
}

#[test]
fn message_without_text_still_advances_cursor() {
    let mut conn = IMAPConnection::new(0);
    let bodies = conn.load_since(1, vec![mail(5, None)]);
    assert!(bodies.is_empty());
    assert_eq!(conn.most_current_id(), 5);
}

#[test]
fn newest_min_id_points_above_cursor() {
    let conn = IMAPConnection::new(5);
    assert_eq!(conn.newest_min_id(&vec![mail(7, None)]), Some(6));
    assert_eq!(conn.newest_min_id(&vec![mail(5, None)]), None);
    assert_eq!(IMAPConnection::new(u32::MAX).newest_min_id(&vec![mail(u32::MAX, None)]), None);
}
