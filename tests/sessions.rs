use scorecards::directory::{Config, DB};
use scorecards::error::ServiceError;
use scorecards::keyed::KeyedList;
use scorecards::session::Session;

fn config() -> Config {
    Config {
        client_id: "client-42".to_string(),
        client_secret: "SECRET-REDACTED".to_string(),
        redirect_uri: "http://localhost:8080/validated".to_string(),
        pkg_path: "pkg".to_string(),
        port: None,
        session_timeout: 600,
        sweep_interval: 600,
    }
}

#[derive(Debug, Clone, PartialEq)]
struct Token(u32);

#[test]
fn idle_session_is_swept() {
    let mut db: DB<Token, String> = DB::new(config());
    db.insert_session("abc".to_string(), Token(1), 1000);
    assert!(db.session_exists("abc"));
    db.clean(1601, 600);
    assert!(!db.session_exists("abc"));
}

#[test]
fn session_at_threshold_survives() {
    let mut db: DB<Token, String> = DB::new(config());
    db.insert_session("abc".to_string(), Token(1), 1000);
    db.clean(1600, 600);
    assert!(db.session_exists("abc"));
}

#[test]
fn used_session_survives_sweep() {
    let mut db: DB<Token, String> = DB::new(config());
    db.insert_session("abc".to_string(), Token(1), 0);
    db.insert_session("def".to_string(), Token(2), 0);
    db.clean(500, 600);
    assert!(db.session_mut("abc", 550).is_ok());
    db.clean(1100, 600);
    assert!(db.session_exists("abc"));
    assert!(!db.session_exists("def"));
}

#[test]
fn keys_are_case_sensitive() {
    let mut db: DB<Token, String> = DB::new(config());
    db.insert_session("abc".to_string(), Token(1), 0);
    assert!(!db.session_exists("ABC"));
    assert_eq!(db.session_mut("ABC", 1).err(), Some(ServiceError::SessionNotFound));
}

#[test]
fn unknown_session_is_not_found() {
    let mut db: DB<Token, String> = DB::new(config());
    assert_eq!(db.session_mut("nobody", 5).err(), Some(ServiceError::SessionNotFound));
}

#[test]
fn relogin_replaces_session() {
    let mut db: DB<Token, String> = DB::new(config());
    db.insert_session("abc".to_string(), Token(1), 0);
    {
        let session = db.session_mut("abc", 1).unwrap();
        session.insert_wcif("Comp2024", "roster".to_string());
    }
    db.insert_session("abc".to_string(), Token(2), 2);
    let session = db.session_mut("abc", 3).unwrap();
    assert_eq!(session.oauth_mut().unwrap().0, 2);
    assert!(session.wcif("Comp2024").is_none());
}

#[test]
fn login_failure_opens_nothing() {
    let mut db: DB<Token, String> = DB::new(config());
    let exchanged: Result<Token, String> = Err("expired".to_string());
    assert_eq!(
        db.login("code".to_string(), exchanged, 0),
        Err(ServiceError::CredentialExchangeFailed)
    );
    assert!(!db.session_exists("code"));
    let exchanged: Result<Token, String> = Ok(Token(9));
    assert_eq!(db.login("code".to_string(), exchanged, 0), Ok(()));
    assert!(db.session_exists("code"));
}

#[test]
fn auth_url_encodes_redirect() {
    let db: DB<Token, String> = DB::new(config());
    assert_eq!(
        db.auth_url(),
        "https://www.worldcubeassociation.org/oauth/authorize?client_id=client-42&redirect_uri=http%3A%2F%2Flocalhost%3A8080%2Fvalidated&response_type=code&scope=manage_competitions"
    );
    assert_eq!(db.config().session_timeout, 600);
}

#[test]
fn cached_document_is_returned_without_fetch() {
    let mut session: Session<Token, String> = Session::new(Token(1));
    assert!(session.wcif("Comp2024").is_none());
    let fetched: Result<String, String> = Ok("roster v1".to_string());
    assert_eq!(session.wcif_force_download("Comp2024", fetched), Ok(()));
    assert_eq!(session.wcif("Comp2024"), Some(&"roster v1".to_string()));
    assert_eq!(session.wcif("Comp2024"), Some(&"roster v1".to_string()));
}

#[test]
fn force_refresh_replaces_cached_document() {
    let mut session: Session<Token, String> = Session::new(Token(1));
    session.insert_wcif("Comp2024", "old".to_string());
    let fetched: Result<String, String> = Ok("new".to_string());
    session.wcif_force_download("Comp2024", fetched).unwrap();
    assert_eq!(session.wcif("Comp2024"), Some(&"new".to_string()));
    let failed: Result<String, String> = Err("network".to_string());
    assert_eq!(
        session.wcif_force_download("Comp2024", failed),
        Err(ServiceError::DocumentFetchFailed)
    );
    assert_eq!(session.wcif("Comp2024"), Some(&"new".to_string()));
}

#[test]
fn checkout_then_checkin_restores_document() {
    let mut session: Session<Token, String> = Session::new(Token(1));
    session.insert_wcif("Comp2024", "roster".to_string());
    let document = session.remove_wcif("Comp2024");
    assert_eq!(document, Some("roster".to_string()));
    assert!(session.wcif("Comp2024").is_none());
    assert_eq!(session.remove_wcif("Comp2024"), None);
    session.insert_wcif("Comp2024", document.unwrap());
    assert_eq!(session.wcif("Comp2024"), Some(&"roster".to_string()));
}

#[test]
fn wcif_mut_edits_in_place() {
    let mut session: Session<Token, String> = Session::new(Token(1));
    assert!(session.wcif_mut("Comp2024").is_none());
    session.insert_wcif("Comp2024", "roster".to_string());
    session.wcif_mut("Comp2024").unwrap().push_str(" patched");
    assert_eq!(session.wcif("Comp2024"), Some(&"roster patched".to_string()));
}

#[test]
fn credential_loan_is_exclusive() {
    let mut session: Session<Token, String> = Session::new(Token(7));
    session.insert_wcif("Comp2024", "roster".to_string());
    let (credential, document) = session.begin_loan("Comp2024").unwrap();
    assert_eq!(credential, Token(7));
    assert_eq!(document, Some("roster".to_string()));
    assert!(session.credential_on_loan());
    assert_eq!(session.oauth_mut().err(), Some(ServiceError::CredentialOnLoan));
    assert_eq!(session.begin_loan("Comp2024").err(), Some(ServiceError::CredentialOnLoan));
    let rendered: Result<String, String> = Ok("roster with groups".to_string());
    assert_eq!(session.end_loan("Comp2024", credential, None, rendered), Ok(()));
    assert!(!session.credential_on_loan());
    assert_eq!(session.wcif("Comp2024"), Some(&"roster with groups".to_string()));
}

#[test]
fn failed_render_restores_credential() {
    let mut session: Session<Token, String> = Session::new(Token(7));
    let (credential, document) = session.begin_loan("Comp2024").unwrap();
    assert_eq!(document, None);
    let rendered: Result<String, String> = Err("pdf".to_string());
    assert_eq!(
        session.end_loan("Comp2024", credential, None, rendered),
        Err(ServiceError::RenderFailed)
    );
    assert_eq!(session.oauth_mut().unwrap().0, 7);
    assert!(session.wcif("Comp2024").is_none());
}

#[test]
fn keyed_list_keeps_one_entry_per_key() {
    let mut list: KeyedList<u32> = KeyedList::new();
    list.insert("a".to_string(), 1);
    list.insert("b".to_string(), 2);
    list.insert("a".to_string(), 3);
    assert_eq!(list.get("a"), Some(&3));
    assert!(list.contains_key("b"));
    assert_eq!(list.remove("a"), Some(3));
    assert_eq!(list.remove("a"), None);
    assert!(!list.contains_key("a"));
    *list.get_mut("b").unwrap() = 5;
    assert_eq!(list.get("b"), Some(&5));
}

#[test]
fn failed_render_restores_cached_document() {
    let mut session: Session<Token, String> = Session::new(Token(7));
    session.insert_wcif("Comp2024", "roster".to_string());
    session.insert_wcif("Other2024", "other".to_string());
    let (credential, document) = session.begin_loan("Comp2024").unwrap();
    let original = document.clone();
    let rendered: Result<String, String> = Err("pdf".to_string());
    assert_eq!(
        session.end_loan("Comp2024", credential, original, rendered),
        Err(ServiceError::RenderFailed)
    );
    assert_eq!(session.wcif("Comp2024"), Some(&"roster".to_string()));
    assert_eq!(session.wcif("Other2024"), Some(&"other".to_string()));
    assert_eq!(session.oauth_mut().unwrap().0, 7);
}

#[test]
fn failed_fetch_during_loan_returns_credential() {
    let mut session: Session<Token, String> = Session::new(Token(3));
    let (credential, document) = session.begin_loan("Comp2024").unwrap();
    assert_eq!(document, None);
    let fetched: Result<String, String> = Err("network".to_string());
    assert_eq!(
        session.loan_fetched(credential, fetched).err(),
        Some(ServiceError::DocumentFetchFailed)
    );
    assert!(!session.credential_on_loan());
    assert!(session.wcif("Comp2024").is_none());
}

#[test]
fn fetched_document_is_handed_on_during_loan() {
    let mut session: Session<Token, String> = Session::new(Token(3));
    let (credential, _) = session.begin_loan("Comp2024").unwrap();
    let fetched: Result<String, String> = Ok("roster".to_string());
    let (credential, document) = session.loan_fetched(credential, fetched).unwrap();
    assert_eq!(document, "roster");
    assert!(session.credential_on_loan());
    assert!(session.wcif("Comp2024").is_none());
    assert_eq!(session.end_loan("Comp2024", credential, None, Ok::<String, ()>(document)), Ok(()));
    assert_eq!(session.wcif("Comp2024"), Some(&"roster".to_string()));
}

#[test]
fn get_or_store_fetches_only_on_miss() {
    let mut session: Session<Token, String> = Session::new(Token(1));
    let first: Result<String, String> = Ok("v1".to_string());
    assert_eq!(session.get_or_store("Comp2024", first), Ok(()));
    assert_eq!(session.wcif("Comp2024"), Some(&"v1".to_string()));
    let second: Result<String, String> = Ok("v2".to_string());
    assert_eq!(session.get_or_store("Comp2024", second), Ok(()));
    assert_eq!(session.wcif("Comp2024"), Some(&"v1".to_string()));
    let failed: Result<String, String> = Err("network".to_string());
    assert_eq!(
        session.get_or_store("Other2024", failed),
        Err(ServiceError::DocumentFetchFailed)
    );
    assert!(session.wcif("Other2024").is_none());
}
