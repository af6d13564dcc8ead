use sex_cli::config::Config;
use sex_cli::errors::StoreError;
use sex_cli::secret_store::SecretStore;

#[test]
fn test_add_organization() {
    let mut config = Config::default();
    config.add_organization("test".to_string(), "test-slug".to_string());

    let org = config.get_organization("test").unwrap();
    assert_eq!(org.name, "test");
    assert_eq!(org.slug, "test-slug");
}

#[test]
fn test_organization_auth_token() {
    let mut store = SecretStore::new_memory();
    let mut config = Config::default();
    config.add_organization("test".to_string(), "test-slug".to_string());

    let org = config.get_organization_mut("test").unwrap();
    org.set_auth_token(&mut store, "secret-token".to_string()).unwrap();

    let token = org.get_auth_token(&store).unwrap().unwrap();
    assert_eq!(token, "secret-token");
}

#[test]
fn test_save_and_load() {
    let mut config = Config::default();
    config.add_organization("test".to_string(), "test-slug".to_string());

    let content = config.save();

    let loaded = Config::load(Some(content.as_str())).unwrap();
    assert!(config == loaded);
}

#[test]
fn test_load_nonexistent() {
    let config = Config::load(None).unwrap();
    assert_eq!(config.organizations.len(), 0);
}

#[test]
fn test_save_and_load_exotic_names() {
    let mut store = SecretStore::new_memory();
    let mut config = Config::default();
    config.add_organization("quote\" back\\slash".to_string(), "line\nbreak\ttab".to_string());
    config.add_organization("päivä 日本".to_string(), "unicode-slug".to_string());
    config
        .cache_project(&mut store, "päivä 日本", "web".to_string(), "Név \"escaped\"\n".to_string())
        .unwrap();

    let content = config.save();
    let loaded = Config::load(Some(content.as_str())).unwrap();
    assert!(config == loaded);
}

#[test]
fn test_load_rejects_garbage() {
    assert_eq!(Config::load(Some("not json at all")).unwrap_err(), StoreError::Parse);
    assert_eq!(Config::load(Some("{ \"organizations\": ")).unwrap_err(), StoreError::Parse);
    assert_eq!(Config::load(Some("")).unwrap_err(), StoreError::Parse);
}

#[test]
fn test_load_rejects_trailing_text() {
    let config = Config::default();
    let mut content = config.save();
    content.push_str("x");
    assert_eq!(Config::load(Some(content.as_str())).unwrap_err(), StoreError::Parse);
}

#[test]
fn test_upsert_same_name() {
    let mut config = Config::default();
    config.add_organization("a".to_string(), "x".to_string());
    config.add_organization("a".to_string(), "y".to_string());

    assert_eq!(config.organizations.len(), 1);
    let org = config.get_organization("a").unwrap();
    assert_eq!(org.slug, "y");
}

#[test]
fn test_get_organization_absent() {
    let config = Config::default();
    assert!(config.get_organization("nobody").is_none());
}

#[test]
fn test_cache_project_missing_org_not_found() {
    let mut store = SecretStore::new_memory();
    let mut config = Config::default();
    let r = config.cache_project(&mut store, "ghost", "web".to_string(), "Web".to_string());
    assert_eq!(r.unwrap_err(), StoreError::NotFound);
}

#[test]
fn test_has_and_add_project() {
    let mut config = Config::default();
    config.add_organization("acme".to_string(), "acme-org".to_string());
    let org = config.get_organization_mut("acme").unwrap();
    assert!(!org.has_project("web"));
    org.add_project("web".to_string());
    assert!(org.has_project("web"));
}

#[test]
fn test_find_project_cached_and_fallback() {
    let mut store = SecretStore::new_memory();
    let mut config = Config::default();
    config.add_organization("one".to_string(), "one-slug".to_string());
    config.add_organization("two".to_string(), "two-slug".to_string());

    let fallback = config.find_project("web");
    assert_eq!(fallback.len(), 2);
    assert!(fallback.iter().all(|p| !p.1));

    config.cache_project(&mut store, "two", "web".to_string(), "Web App".to_string()).unwrap();
    let cached = config.find_project("web");
    assert_eq!(cached.len(), 1);
    assert_eq!(cached[0].0.name, "two");
    assert!(cached[0].1);
}
