use sex_cli::config::Config;
use sex_cli::secret_store::SecretStore;

#[test]
fn test_end_to_end_scenario() {
    let mut store = SecretStore::new_memory();
    let mut config = Config::default();

    config.add_organization("acme".to_string(), "acme-org".to_string());
    let org = config.get_organization("acme").unwrap();
    org.set_auth_token(&mut store, "tok-123".to_string()).unwrap();
    assert_eq!(org.get_auth_token(&store).unwrap().unwrap(), "tok-123");

    config.cache_project(&mut store, "acme", "web".to_string(), "Web App".to_string()).unwrap();
    let org = config.get_organization("acme").unwrap();
    assert_eq!(org.get_project(&mut store, "web").unwrap().unwrap(), "Web App");
    assert!(org.get_project(&mut store, "missing").is_none());

    let content = config.save();
    let reloaded = Config::load(Some(content.as_str())).unwrap();
    assert!(config == reloaded);
    let org = reloaded.get_organization("acme").unwrap();
    assert_eq!(org.get_project(&mut store, "web").unwrap().unwrap(), "Web App");
    assert_eq!(org.get_auth_token(&store).unwrap().unwrap(), "tok-123");
}

#[test]
fn test_token_never_in_saved_document() {
    let mut store = SecretStore::new_memory();
    let mut config = Config::default();
    config.add_organization("acme".to_string(), "acme-org".to_string());
    let org = config.get_organization("acme").unwrap();
    org.set_auth_token(&mut store, "super-secret-token".to_string()).unwrap();

    let content = config.save();
    assert!(!content.contains("super-secret-token"));
}

#[test]
fn test_saved_project_name_not_plaintext() {
    let mut store = SecretStore::new_memory();
    let mut config = Config::default();
    config.add_organization("acme".to_string(), "acme-org".to_string());
    config
        .cache_project(&mut store, "acme", "web".to_string(), "VisiblePlaintextName".to_string())
        .unwrap();

    let content = config.save();
    assert!(!content.contains("VisiblePlaintextName"));
}
