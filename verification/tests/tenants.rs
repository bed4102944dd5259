use taodb::api::{
    authenticate, check_admin, extract_token, ingest_decision, ingest_source, store_key, AuthError, IngestError,
    IngestSource,
};
use taodb::tenant::{generate_token, plain_name, join_path, new_project_config, new_user_config, token_from, TenantError};
use taodb::{TenantManager, UserConfig};

fn user(id: &str, token: &str) -> UserConfig {
    new_user_config(id, &format!("{id}@x.com"), token.to_string(), 0)
}

#[test]
fn project_paths_live_under_their_user() {
    let mgr = TenantManager::new("/data");
    assert_eq!(mgr.user_dir("alice").unwrap(), "/data/users/alice");
    assert_eq!(mgr.project_db_path("alice", "chudao").unwrap(), "/data/users/alice/projects/chudao/db");
    assert!(mgr.project_db_path("alice", "chudao").unwrap().contains("chudao"));
    let rel = TenantManager::new("./taodb-data/");
    assert_eq!(rel.project_db_path("bob", "p2").unwrap(), "./taodb-data/users/bob/projects/p2/db");
    assert_ne!(mgr.project_db_path("alice", "p1").unwrap(), mgr.project_db_path("bob", "p1").unwrap());
}

#[test]
fn ids_that_are_not_plain_names_are_refused() {
    let mgr = TenantManager::new("/data");
    for bad in ["/etc", "../x", "..", ".", "", "a/b"] {
        assert_eq!(mgr.user_dir(bad).unwrap_err(), TenantError::InvalidName, "{bad}");
        assert_eq!(mgr.project_db_path(bad, "p").unwrap_err(), TenantError::InvalidName);
        assert_eq!(mgr.project_db_path("alice", bad).unwrap_err(), TenantError::InvalidName);
    }
    assert!(plain_name("...") && plain_name("alice.x") && !plain_name("x/"));
    let a = mgr.user_dir("a").unwrap();
    let ab = mgr.user_dir("ab").unwrap();
    assert!(!ab.starts_with(&(a.clone() + "/")));
    assert!(a.starts_with("/data/users/"));
}

#[test]
fn paths_join_as_posix_paths() {
    assert_eq!(join_path("a", "b"), "a/b");
    assert_eq!(join_path("a/", "b"), "a/b");
    assert_eq!(join_path("", "b"), "b");
    assert_eq!(join_path("a", "/abs"), "/abs");
}

#[test]
fn new_users_get_the_free_tier() {
    let u = new_user_config("alice", "alice@example.com", "tk_1".to_string(), 42);
    assert_eq!(u.user_id, "alice");
    assert_eq!(u.email, "alice@example.com");
    assert_eq!(u.tier, "free");
    assert_eq!(u.api_token, "tk_1");
    assert_eq!(u.created_at, 42);
    assert_eq!(u.storage_quota_mb, 100);
    assert_eq!(u.monthly_recall_limit, 1000);
    let p = new_project_config("alice", "chudao", "触道归墟", 7);
    assert_eq!(p.project_id, "chudao");
    assert_eq!(p.user_id, "alice");
    assert_eq!(p.name, "触道归墟");
    assert_eq!(p.description, "");
    assert_eq!(p.created_at, 7);
}

#[test]
fn users_are_found_by_their_token() {
    let mgr = TenantManager::new("/data");
    let users = vec![user("alice", "tk_a"), user("bob", "tk_b"), user("carol", "tk_b")];
    assert_eq!(mgr.find_user_by_token(&users, "tk_b").unwrap().user_id, "bob");
    assert_eq!(mgr.find_user_by_token(&users, "tk_a").unwrap().user_id, "alice");
    assert_eq!(mgr.find_user_by_token(&users, "tk_x").unwrap_err(), TenantError::InvalidToken);
    assert_eq!(mgr.find_user_by_token(&vec![], "tk_a").unwrap_err(), TenantError::InvalidToken);
}

#[test]
fn tokens_have_the_issued_shape() {
    let t = generate_token();
    assert_eq!(t.len(), 3 + 16 + 1 + 16);
    assert!(t.starts_with("tk_"));
    assert_eq!(&t[19..20], "_");
    assert!(t[3..19].chars().all(|c| c.is_ascii_hexdigit() && !c.is_ascii_uppercase()));
    assert!(t[20..].chars().all(|c| c.is_ascii_hexdigit() && !c.is_ascii_uppercase()));
    assert_ne!(generate_token(), generate_token());
    assert_eq!(token_from(1, 0xabc), "tk_0000000000000001_0000000000000abc");
    assert_eq!(token_from(u64::MAX, 0), "tk_ffffffffffffffff_0000000000000000");
}

#[test]
fn tokens_are_read_from_either_header() {
    assert_eq!(extract_token(Some("Bearer tk_1"), None), Some("tk_1".to_string()));
    assert_eq!(extract_token(Some("Bearer tk_1"), Some("tk_2")), Some("tk_1".to_string()));
    assert_eq!(extract_token(Some("Basic tk_1"), Some("tk_2")), Some("tk_2".to_string()));
    assert_eq!(extract_token(Some("Basic tk_1"), None), None);
    assert_eq!(extract_token(None, Some("tk_2")), Some("tk_2".to_string()));
    assert_eq!(extract_token(None, None), None);
    assert_eq!(extract_token(Some("Bearer "), None), Some(String::new()));
}

#[test]
fn admin_checks_and_authentication() {
    assert!(check_admin(Some("tk_admin"), "tk_admin"));
    assert!(!check_admin(Some("tk_a"), "tk_admin"));
    assert!(!check_admin(None, "tk_admin"));
    let mgr = TenantManager::new("/data");
    let users = vec![user("alice", "tk_a")];
    assert_eq!(authenticate(&mgr, None, "tk_admin", &users).unwrap_err(), AuthError::MissingToken);
    assert_eq!(
        authenticate(&mgr, Some("tk_admin"), "tk_admin", &users).unwrap_err(),
        AuthError::AdminTokenNotAllowed
    );
    assert_eq!(authenticate(&mgr, Some("tk_x"), "tk_admin", &users).unwrap_err(), AuthError::InvalidToken);
    assert_eq!(authenticate(&mgr, Some("tk_a"), "tk_admin", &users).unwrap().user_id, "alice");
}

#[test]
fn store_keys_join_user_and_project() {
    assert_eq!(store_key("alice", "chudao"), "alice/chudao");
    assert_eq!(store_key("", ""), "/");
}

#[test]
fn ingest_reads_event_ids_as_ulids() {
    let id = "01ARZ3NDEKTSV4RRFFQ69G5FAV";
    let value = ulid::Ulid::from_string(id).unwrap().0;
    assert_eq!(ingest_source(true, Some(id), false), Ok(IngestSource::Given(Some(value))));
    assert_eq!(ingest_source(true, None, true), Ok(IngestSource::Given(None)));
    assert_eq!(ingest_source(true, Some("not-a-ulid"), true), Err(IngestError::InvalidEventId));
    assert_eq!(ingest_source(false, Some("not-a-ulid"), true), Ok(IngestSource::Text));
    assert_eq!(ingest_source(false, None, false), Err(IngestError::MissingContent));
    assert_eq!(ingest_decision(true, Some(Some(7)), false), Ok(IngestSource::Given(Some(7))));
    assert_eq!(ingest_decision(true, Some(None), false), Err(IngestError::InvalidEventId));
}
