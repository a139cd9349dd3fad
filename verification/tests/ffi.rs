use nemo::app::{decode, AppBody};
use nemo::ffi::{call_row, call_signal};
use nemo::app::FileMeta;
use nemo::ffi::{
    bump_seq, call_state, expire_rows, hide_target, push_control, push_file, push_text,
    push_revoked_rows, remap_conv_id, ttl_for, DisplayRow, NameMap, SeqMap,
};
use nemo::mailbox::TtlBucket;

#[test]
fn ffi_records_are_display_only() {
    let row = DisplayRow {
        conv_id: "ab".repeat(32),
        conv_seq: 1,
        text: "hi".into(),
        sent_at: 1,
        file_name: String::new(),
        file_mime: String::new(),
        file_bytes: Vec::new(),
        fetch_token: String::new(),
        kind: String::new(),
        emoji: String::new(),
        target: 0,
        hidden: false,
        displayed_at: 1,
    };
    assert_eq!(row.conv_id.len(), 64);
    let _ = row.text;
}

#[test]
fn bump_seq_counts_per_conversation() {
    let mut seqs = SeqMap::new();
    assert_eq!(bump_seq(&mut seqs, "alice"), 1);
    assert_eq!(bump_seq(&mut seqs, "alice"), 2);
    assert_eq!(bump_seq(&mut seqs, "bob"), 1);
    assert_eq!(seqs.get(&"alice".to_string()), 2);
}

#[test]
fn pushes_append_rows_and_raise_the_sequence() {
    let mut inbox = Vec::new();
    let mut seqs = SeqMap::new();
    let row = push_text(&mut inbox, &mut seqs, "c".into(), 5, "hello".into(), 100);
    assert_eq!(row.text, "hello");
    assert_eq!(row.displayed_at, 100);
    assert_eq!(seqs.get(&"c".to_string()), 5);
    // A lower number does not lower the recorded one.
    push_text(&mut inbox, &mut seqs, "c".into(), 3, "late".into(), 101);
    assert_eq!(seqs.get(&"c".to_string()), 5);
    let meta = FileMeta { name: "a.txt".into(), mime: "text/plain".into(), size: 3 };
    let f = push_file(&mut inbox, &mut seqs, "c".into(), 6, 102, meta, vec![1, 2, 3], "tok".into());
    assert_eq!(f.file_name, "a.txt");
    assert_eq!(f.file_mime, "text/plain");
    assert_eq!(f.file_bytes, vec![1, 2, 3]);
    assert_eq!(f.fetch_token, "tok");
    let r = push_control(&mut inbox, &mut seqs, "c".into(), 7, 103, "reaction", "+1".into(), 5);
    assert_eq!(r.kind, "reaction");
    assert_eq!(r.target, 5);
    assert_eq!(inbox.len(), 4);
    assert_eq!(seqs.get(&"c".to_string()), 7);
}

#[test]
fn delete_hides_the_target_but_not_reactions() {
    let mut inbox = Vec::new();
    let mut seqs = SeqMap::new();
    push_text(&mut inbox, &mut seqs, "c".into(), 1, "secret".into(), 10);
    push_control(&mut inbox, &mut seqs, "c".into(), 1, 11, "reaction", "+1".into(), 1);
    push_text(&mut inbox, &mut seqs, "d".into(), 1, "other".into(), 12);
    hide_target(&mut inbox, "c", 1);
    assert!(inbox[0].hidden);
    assert_eq!(inbox[0].text, "");
    assert_eq!(inbox[0].kind, "deleted");
    assert!(!inbox[1].hidden);
    assert!(!inbox[2].hidden);
    assert_eq!(inbox[2].text, "other");
}

#[test]
fn timers_expire_rows_once() {
    let mut inbox = Vec::new();
    let mut seqs = SeqMap::new();
    let mut timers = SeqMap::new();
    timers.set("c".to_string(), 60);
    push_text(&mut inbox, &mut seqs, "c".into(), 1, "short".into(), 1000);
    push_text(&mut inbox, &mut seqs, "d".into(), 1, "kept".into(), 1000);
    assert!(expire_rows(&mut inbox, &timers, 1059).is_empty());
    let gone = expire_rows(&mut inbox, &timers, 1060);
    assert_eq!(gone.len(), 1);
    assert!(inbox[0].hidden);
    assert_eq!(inbox[0].text, "");
    assert!(!inbox[1].hidden);
    assert!(expire_rows(&mut inbox, &timers, 5000).is_empty());
}

#[test]
fn ttl_buckets_follow_the_timer() {
    let mut timers = SeqMap::new();
    assert_eq!(ttl_for(&timers, "c"), TtlBucket::Default);
    timers.set("c".to_string(), 60);
    assert_eq!(ttl_for(&timers, "c"), TtlBucket::Seconds60);
    timers.set("c".to_string(), 61);
    assert_eq!(ttl_for(&timers, "c"), TtlBucket::Hour);
}

#[test]
fn call_screen_states() {
    assert_eq!(call_state(true, true, false), "live");
    assert_eq!(call_state(true, false, true), "calling");
    assert_eq!(call_state(false, false, true), "ringing");
    assert_eq!(call_state(false, true, false), "idle");
}

#[test]
fn remap_moves_rows_and_keeps_the_higher_sequence() {
    let mut inbox = Vec::new();
    let mut seqs = SeqMap::new();
    let mut names = NameMap::new();
    let mut timers = SeqMap::new();
    push_text(&mut inbox, &mut seqs, "old".into(), 9, "a".into(), 1);
    push_text(&mut inbox, &mut seqs, "new".into(), 4, "b".into(), 2);
    names.set("old".to_string(), "Alice".to_string());
    timers.set("old".to_string(), 30);
    timers.set("new".to_string(), 90);
    remap_conv_id(&mut inbox, &mut seqs, &mut names, &mut timers, "old", "new");
    assert_eq!(inbox[0].conv_id, "new");
    assert_eq!(inbox[1].conv_id, "new");
    assert_eq!(seqs.get(&"new".to_string()), 9);
    assert_eq!(seqs.get(&"old".to_string()), 0);
    assert_eq!(names.get_ref(&"new".to_string()), Some(&"Alice".to_string()));
    assert_eq!(names.get_ref(&"old".to_string()), None);
    assert_eq!(timers.get(&"new".to_string()), 90);
    assert_eq!(timers.get(&"old".to_string()), 0);
}

#[test]
fn call_signal_numbers_encodes_and_shows_the_id() {
    let mut seqs = SeqMap::new();
    let mut inbox = Vec::new();
    let s = call_signal(&mut seqs, "peer", AppBody::CallEnd { call_id: [0xab; 16] }, 77).unwrap();
    assert_eq!(s.conv_seq, 1);
    assert_eq!(s.id_hex, "ab".repeat(16));
    let m = decode(&s.plaintext).unwrap();
    assert_eq!(m.header.conv_seq, 1);
    assert_eq!(m.header.sent_at, 77);
    assert_eq!(m.body, AppBody::CallEnd { call_id: [0xab; 16] });
    let quiet = call_row(&mut inbox, &mut seqs, "peer".into(), &s, 77, "call_end", false);
    assert!(inbox.is_empty());
    assert_eq!(quiet.text, "ab".repeat(16));
    assert_eq!(quiet.kind, "call_end");
    let shown = call_row(&mut inbox, &mut seqs, "peer".into(), &s, 77, "call_end", true);
    assert_eq!(inbox.len(), 1);
    assert_eq!(shown.kind, "call_end");
    let t = call_signal(&mut seqs, "peer", AppBody::Text { text: "x".into() }, 78).unwrap();
    assert_eq!(t.conv_seq, 2);
    assert_eq!(t.id_hex, "");
}

#[test]
fn revoked_identities_get_one_control_row_each() {
    let mut inbox = Vec::new();
    let mut seqs = SeqMap::new();
    push_text(&mut inbox, &mut seqs, "c".into(), 3, "hi".into(), 10);
    let newly = vec![[0xabu8; 32], [0x01u8; 32]];
    let rows = push_revoked_rows(&mut inbox, &mut seqs, &newly, 500);
    assert_eq!(rows.len(), 2);
    assert_eq!(rows[0].conv_id, "ab".repeat(32));
    assert_eq!(rows[1].conv_id, "01".repeat(32));
    for r in &rows {
        assert_eq!(r.kind, "revoked");
        assert_eq!(r.conv_seq, 0);
        assert_eq!(r.sent_at, 500);
        assert_eq!(r.text, "");
        assert_eq!(r.emoji, "");
        assert_eq!(r.target, 0);
    }
    assert_eq!(inbox.len(), 3);
    assert_eq!(inbox[1], rows[0]);
    assert_eq!(inbox[2], rows[1]);
    assert_eq!(seqs.get(&"c".to_string()), 3);
    assert_eq!(seqs.get(&"ab".repeat(32)), 0);
    assert!(push_revoked_rows(&mut inbox, &mut seqs, &Vec::new(), 1).is_empty());
}
