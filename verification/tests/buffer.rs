use amethystate::buffer::{clear_committed, pending_prefix, Pending, PendingOp};

fn buffer(entries: &[(&str, Option<&[u8]>)]) -> Pending {
    let mut pending = Pending::new();
    for (k, v) in entries {
        let op = match v {
            Some(b) => PendingOp::Put(b.to_vec()),
            None => PendingOp::Delete,
        };
        pending.insert(k, op);
    }
    pending
}

fn copy_of(pending: &Pending) -> Pending {
    let mut out = Pending::new();
    for k in pending.keys() {
        out.insert(&k, pending.get(&k).unwrap().duplicate());
    }
    out
}

#[test]
fn collecting_leaves_the_buffer_alone() {
    let pending = buffer(&[("a.x", Some(b"1")), ("a.y", Some(b"2"))]);

    let taken = pending_prefix(&pending, "a");

    assert_eq!(taken.len(), 2);
    assert_eq!(
        pending.len(),
        2,
        "entries must survive until the write lands, or a failure below \
         loses them from memory and disk both"
    );
}

#[test]
fn an_empty_prefix_means_everything() {
    let pending = buffer(&[("a.x", Some(b"1")), ("b.y", Some(b"2"))]);
    assert_eq!(pending_prefix(&pending, "").len(), 2);
}

#[test]
fn a_prefix_matches_its_own_key_and_its_children() {
    let pending = buffer(&[("a", Some(b"root")), ("a.x", Some(b"child")), ("ab", Some(b"sibling"))]);

    let taken = pending_prefix(&pending, "a");

    assert!(taken.contains_key("a"));
    assert!(taken.contains_key("a.x"));
    assert!(!taken.contains_key("ab"), "a prefix is not a substring");
}

#[test]
fn committed_entries_are_dropped() {
    let mut pending = buffer(&[("a.x", Some(b"1")), ("a.y", Some(b"2"))]);
    let committed = copy_of(&pending);

    clear_committed(&mut pending, &committed);

    assert!(pending.is_empty());
}

#[test]
fn a_value_that_changed_during_the_commit_survives() {
    let committed = buffer(&[("a.x", Some(b"old"))]);
    let mut pending = buffer(&[("a.x", Some(b"new"))]);

    clear_committed(&mut pending, &committed);

    assert_eq!(
        pending.get("a.x"),
        Some(&PendingOp::Put(b"new".to_vec())),
        "the newer write is not on disk, so dropping it would lose it"
    );
}

#[test]
fn a_key_written_after_the_commit_survives() {
    let committed = buffer(&[("a.x", Some(b"1"))]);
    let mut pending = buffer(&[("a.x", Some(b"1")), ("a.z", Some(b"9"))]);

    clear_committed(&mut pending, &committed);

    assert!(!pending.contains_key("a.x"));
    assert!(pending.contains_key("a.z"), "it was never committed");
}

#[test]
fn a_pending_delete_is_committed_like_any_other_entry() {
    let mut pending = buffer(&[("a.x", None)]);
    let committed = copy_of(&pending);

    clear_committed(&mut pending, &committed);

    assert!(pending.is_empty());
}

#[test]
fn a_read_sees_the_buffered_write_and_a_buffered_delete() {
    let mut pending = Pending::new();
    assert_eq!(pending.stage_write("ui.theme", b"dark"), None);
    assert_eq!(pending.buffered_data("ui.theme"), Some(Some(&b"dark"[..])));
    assert_eq!(pending.stage_write("ui.theme", b"light"), Some(b"dark".to_vec()));
    pending.stage_delete("ui.theme");
    assert_eq!(pending.buffered_data("ui.theme"), Some(None));
    assert_eq!(pending.buffered_data("ui.scale"), None);
}

#[test]
fn a_namespace_flag_is_not_data() {
    let mut pending = Pending::new();
    pending.stage_init("ui", true);
    assert_eq!(pending.buffered_data("ui"), None);
    assert_eq!(pending.get("ui"), Some(&PendingOp::Init(true)));
    assert!(!PendingOp::Init(false).is_data());
    assert_eq!(PendingOp::Delete.value(), None);
    assert_eq!(PendingOp::Put(vec![7]).value(), Some(&[7u8][..]));
}

#[test]
fn removing_a_subtree_buffers_a_delete_for_each_key_it_held() {
    let mut pending = buffer(&[("ui.theme", Some(b"dark")), ("other", Some(b"1"))]);

    pending.stage_deletes(&vec!["ui.theme".to_string(), "ui.scale".to_string()]);

    assert_eq!(pending.len(), 3);
    assert!(pending.get("ui.theme").unwrap().same(&PendingOp::Delete));
    assert!(pending.get("ui.scale").unwrap().same(&PendingOp::Delete));
    assert!(pending.get("other").unwrap().same(&PendingOp::Put(b"1".to_vec())));
}
