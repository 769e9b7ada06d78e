use llm_workbench::config::{AppConfig, ConfigStore, GeneralConfig};

fn store() -> ConfigStore {
    ConfigStore::new("config.enc".to_string(), vec![5u8; 32])
}

#[test]
fn test_config_roundtrip() {
    let store = store();
    let mut config = AppConfig::default();
    store.update_provider(
        &mut config,
        "test".to_string(),
        Some("secret123".to_string()),
        Some("https://api.example.com".to_string()),
        Some("model-1".to_string()),
        Some(true),
    );

    let sealed = store.seal(b"{\"providers\":{}}").ok().unwrap();
    let opened = store.unseal(&sealed).ok().unwrap();
    assert_eq!(opened, b"{\"providers\":{}}".to_vec());

    assert_eq!(config.providers.len(), 1);
    let provider = store.get_provider(&config, "test").ok().unwrap();
    assert_eq!(provider.api_key, "secret123");
    assert_eq!(provider.base_url.as_deref(), Some("https://api.example.com"));
}

#[test]
fn update_keeps_unset_fields() {
    let store = store();
    let mut config = AppConfig::default();
    store.update_provider(&mut config, "p".to_string(), Some("k1".to_string()), None, None, Some(true));
    store.update_provider(&mut config, "p".to_string(), None, Some("u".to_string()), None, None);
    assert_eq!(config.providers.len(), 1);
    let p = store.get_provider(&config, "p").ok().unwrap();
    assert_eq!(p.api_key, "k1");
    assert_eq!(p.base_url.as_deref(), Some("u"));
    assert_eq!(p.default_model, None);
    assert!(p.enabled);
}

#[test]
fn new_entry_starts_empty_and_disabled() {
    let store = store();
    let mut config = AppConfig::default();
    store.update_provider(&mut config, "q".to_string(), None, None, None, None);
    let p = store.get_provider(&config, "q").ok().unwrap();
    assert_eq!(p.provider_id, "q");
    assert_eq!(p.api_key, "");
    assert!(!p.enabled);
}

#[test]
fn masked_hides_key() {
    let store = store();
    let mut config = AppConfig::default();
    store.update_provider(&mut config, "a".to_string(), Some("secret".to_string()), None, None, None);
    store.update_provider(&mut config, "b".to_string(), None, None, Some("m".to_string()), Some(true));
    let masked = store.get_all_providers_masked(&config);
    assert_eq!(masked.len(), 2);
    assert_eq!(masked[0].provider_id, "a");
    assert!(masked[0].has_api_key);
    assert_eq!(masked[1].provider_id, "b");
    assert!(!masked[1].has_api_key);
    assert_eq!(masked[1].default_model.as_deref(), Some("m"));
    assert!(masked[1].enabled);
}

#[test]
fn delete_and_missing_provider() {
    let store = store();
    let mut config = AppConfig::default();
    store.update_provider(&mut config, "a".to_string(), None, None, None, None);
    store.update_provider(&mut config, "b".to_string(), None, None, None, None);
    store.delete_provider(&mut config, "a");
    store.delete_provider(&mut config, "zzz");
    assert_eq!(config.providers.len(), 1);
    assert!(store.get_provider(&config, "a").is_err());
    match store.get_provider(&config, "a") {
        Err(llm_workbench::config::ConfigError::ProviderNotFound(id)) => assert_eq!(id, "a"),
        _ => panic!("expected ProviderNotFound"),
    }
}

#[test]
fn defaults() {
    let g = GeneralConfig::default();
    assert_eq!(g.theme, "light");
    assert!(g.default_provider.is_none());
    assert!(AppConfig::default().providers.is_empty());
    assert_eq!(store().config_path(), "config.enc");
}

#[test]
fn unseal_with_short_key_fails() {
    let bad = ConfigStore::new("c".to_string(), vec![1u8; 8]);
    assert!(bad.seal(b"{}").is_err());
    assert!(bad.unseal("AAAA").is_err());
}
