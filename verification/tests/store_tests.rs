use picoclaw::session::Message;
use picoclaw::store::SessionManager;

#[test]
fn test_session_create_and_retrieve() {
    let mut manager = SessionManager::new_memory();
    let session = manager.get_or_create("test-session").unwrap();
    assert!(session.messages.is_empty());
    assert_eq!(session.key, "test-session");
}

#[test]
fn test_session_save_and_load() {
    let mut manager = SessionManager::new_memory();
    let mut session = manager.get_or_create("test-session").unwrap();
    session.add_message(Message::user("Hello"));
    manager.save(&session).unwrap();

    let loaded = manager.get_or_create("test-session").unwrap();
    assert_eq!(loaded.messages.len(), 1);
    assert_eq!(loaded.messages[0].content, "Hello");
}

#[test]
fn test_session_delete() {
    let mut manager = SessionManager::new_memory();
    manager.get_or_create("test-session").unwrap();
    assert!(manager.key_exists("test-session"));

    manager.delete("test-session").unwrap();
    assert!(!manager.key_exists("test-session"));
}

#[test]
fn test_session_list() {
    let mut manager = SessionManager::new_memory();
    manager.get_or_create("session-a").unwrap();
    manager.get_or_create("session-b").unwrap();
    manager.get_or_create("session-c").unwrap();

    let keys = manager.list().unwrap();
    assert_eq!(keys.len(), 3);
    assert!(keys.contains(&"session-a".to_string()));
    assert!(keys.contains(&"session-b".to_string()));
    assert!(keys.contains(&"session-c".to_string()));
}

#[test]
fn test_session_get_nonexistent() {
    let manager = SessionManager::new_memory();
    let result = manager.get("nonexistent").unwrap();
    assert!(result.is_none());
}

#[test]
fn test_session_clear_cache() {
    let mut manager = SessionManager::new_memory();
    manager.get_or_create("session1").unwrap();
    manager.get_or_create("session2").unwrap();

    assert_eq!(manager.cache_size(), 2);

    manager.clear_cache();
    assert_eq!(manager.cache_size(), 0);
}

#[test]
fn test_session_default() {
    let mut manager = SessionManager::default();
    let session = manager.get_or_create("test").unwrap();
    assert!(session.is_empty());
}

#[test]
fn test_sanitize_key() {
    assert_eq!(SessionManager::sanitize_key("simple"), "simple");
    assert_eq!(SessionManager::sanitize_key("telegram:chat123"), "telegram_chat123");
    assert_eq!(SessionManager::sanitize_key("path/to/session"), "path_to_session");
    assert_eq!(
        SessionManager::sanitize_key("a:b/c\\d*e?f\"g<h>i|j"),
        "a_b_c_d_e_f_g_h_i_j"
    );
}

#[test]
fn test_record_persistence_round_trip() {
    let mut manager = SessionManager::new();
    let mut session = manager.get_or_create("persist-test").unwrap();
    session.add_message(Message::user("Persisted message"));
    manager.save(&session).unwrap();

    // Drop the cached copy so the next lookup must decode the record.
    manager.clear_cache();
    assert_eq!(manager.cache_size(), 0);

    let loaded = manager.get_or_create("persist-test").unwrap();
    assert_eq!(loaded.messages.len(), 1);
    assert_eq!(loaded.messages[0].content, "Persisted message");
    assert_eq!(loaded.key, "persist-test");
}

#[test]
fn test_get_or_create_idempotent() {
    let mut manager = SessionManager::new();
    let first = manager.get_or_create("idem").unwrap();
    manager.save(&first).unwrap();
    let records_before = manager.record_text("idem");

    let second = manager.get_or_create("idem").unwrap();
    let third = manager.get_or_create("idem").unwrap();
    assert_eq!(second, third);
    assert_eq!(manager.cache_size(), 1);
    assert_eq!(manager.record_text("idem"), records_before);
}

#[test]
fn test_sanitized_key_round_trip() {
    let mut manager = SessionManager::new();
    let key = "chat:room/7|draft?";
    let session = manager.get_or_create(key).unwrap();
    manager.save(&session).unwrap();
    assert!(manager.key_exists(key));
    assert!(manager.record_text(key).is_some());

    manager.clear_cache();
    assert!(manager.key_exists(key));
    let keys = manager.list().unwrap();
    assert!(keys.contains(&"chat_room_7_draft_".to_string()));

    manager.delete(key).unwrap();
    assert!(!manager.key_exists(key));
    assert!(manager.record_text(key).is_none());
}

#[test]
fn test_corrupt_record_is_data_error() {
    let mut manager = SessionManager::new();
    manager.install_record("bad", "this is not a session record");
    assert!(manager.get_or_create("bad").is_err());
    assert!(manager.get("bad").is_err());
}

#[test]
fn test_list_merges_cache_and_records() {
    let mut manager = SessionManager::new();
    let session = manager.get_or_create("alpha").unwrap();
    manager.save(&session).unwrap();
    manager.clear_cache();
    manager.get_or_create("beta").unwrap();

    let keys = manager.list().unwrap();
    assert_eq!(keys.len(), 2);
    assert!(keys.contains(&"alpha".to_string()));
    assert!(keys.contains(&"beta".to_string()));
}

#[test]
fn test_list_is_sorted() {
    let mut manager = SessionManager::new_memory();
    manager.get_or_create("gamma").unwrap();
    manager.get_or_create("alpha").unwrap();
    manager.get_or_create("beta").unwrap();

    let keys = manager.list().unwrap();
    assert_eq!(keys, vec!["alpha".to_string(), "beta".to_string(), "gamma".to_string()]);
}

#[test]
fn test_save_then_reload_all_fields() {
    let mut manager = SessionManager::new();
    let mut session = manager.get_or_create("full").unwrap();
    session.add_message(Message::assistant_with_tools(
        "narr",
        vec![picoclaw::session::ToolCall::new("id1", "shell", r#"{"command":"pwd"}"#)],
    ));
    session.add_message(Message::tool_result("id1", "/root"));
    manager.save(&session).unwrap();
    manager.clear_cache();
    let loaded = manager.get_or_create("full").unwrap();
    assert_eq!(loaded, session);
}

#[test]
fn test_memory_store_not_persistent() {
    let mut manager = SessionManager::new_memory();
    let session = manager.get_or_create("gone").unwrap();
    manager.save(&session).unwrap();
    assert!(manager.record_text("gone").is_none());
    manager.clear_cache();
    assert!(!manager.key_exists("gone"));
}

#[test]
fn test_delete_missing_key_is_ok() {
    let mut manager = SessionManager::new();
    assert!(manager.delete("never-created").is_ok());
}
