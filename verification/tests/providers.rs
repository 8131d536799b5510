use provider_sync::provider::{
    is_valid_explicit_provider_id, is_valid_provider_id_for_discovery,
    list_configured_provider_ids, load_provider_sync_targets, read_current_provider,
    resolve_target_provider, rollout_provider_ids, root_toml_string_value, sorted_provider_ids,
    toml_key_raw_value, toml_string_value, ProviderSyncTargetSource,
};

fn texts(v: &[&str]) -> Vec<String> {
    v.iter().map(|s| s.to_string()).collect()
}

const CONFIG: &str = "# a comment\nmodel_provider = \"custom\" # now\n\n[model_providers.custom]\nname = \"x\"\n[ model_providers.no ]\n[model_providers.other]\r\nmodel_provider = \"late\"\n";

#[test]
fn the_current_provider_stands_before_the_first_table() {
    assert_eq!(read_current_provider(Some(CONFIG)), "custom");
    assert_eq!(read_current_provider(None), "openai");
    assert_eq!(read_current_provider(Some("[a]\nmodel_provider = \"x\"\n")), "openai");
    assert_eq!(read_current_provider(Some("model_provider = \"  \"\n")), "openai");
    assert_eq!(read_current_provider(Some("model_provider = 5\n")), "openai");
}

#[test]
fn strings_of_the_configuration_are_read() {
    assert_eq!(toml_string_value("\"a\\\"b\" rest"), Some("a\"b".to_string()));
    assert_eq!(toml_string_value("'a\\b'"), Some("a\\b".to_string()));
    assert_eq!(toml_string_value("\"open"), None);
    assert_eq!(toml_string_value("plain"), None);
    assert_eq!(toml_string_value(""), None);
    assert_eq!(toml_key_raw_value("key = 1", "key"), Some("1".to_string()));
    assert_eq!(toml_key_raw_value("keys = 1", "key"), None);
    assert_eq!(root_toml_string_value(CONFIG, "model_provider"), Some("custom".to_string()));
    assert_eq!(root_toml_string_value(CONFIG, "name"), None);
}

#[test]
fn a_target_may_be_asked_for() {
    assert_eq!(resolve_target_provider(Some(CONFIG), None), Ok("custom".to_string()));
    assert_eq!(resolve_target_provider(Some(CONFIG), Some("  ")), Ok("custom".to_string()));
    assert_eq!(resolve_target_provider(None, Some(" my-1.x_Y ")), Ok("my-1.x_Y".to_string()));
    assert_eq!(
        resolve_target_provider(None, Some("a b\"")),
        Err("Invalid provider sync target: \"a b\\\"\"".to_string())
    );
    assert!(is_valid_explicit_provider_id("a"));
    assert!(!is_valid_explicit_provider_id(""));
    assert!(!is_valid_explicit_provider_id("é"));
}

#[test]
fn configured_providers_are_listed() {
    assert_eq!(list_configured_provider_ids(Some(CONFIG)), texts(&["custom", "openai", "other"]));
    assert_eq!(list_configured_provider_ids(None), texts(&["openai"]));
    assert!(is_valid_provider_id_for_discovery("a b"));
    assert!(!is_valid_provider_id_for_discovery(" "));
    assert!(!is_valid_provider_id_for_discovery("a\u{7}"));
    assert_eq!(sorted_provider_ids(&texts(&["b", " ", "a", "b"])), texts(&["a", "b"]));
    assert_eq!(
        rollout_provider_ids(&vec![texts(&["b", "a"]), texts(&["a", "c\n"])]),
        texts(&["a", "b"])
    );
}

#[test]
fn targets_name_their_sources_with_the_current_one_first() {
    let list = load_provider_sync_targets(
        Some(CONFIG),
        &texts(&["alpha", "custom"]),
        &vec![texts(&["alpha"]), texts(&["zeta"])],
    );
    assert_eq!(list.current_provider, "custom");
    let ids: Vec<&str> = list.targets.iter().map(|t| t.id.as_str()).collect();
    assert_eq!(ids, vec!["custom", "alpha", "openai", "other", "zeta"]);
    assert!(list.targets[0].is_current_provider);
    assert_eq!(
        list.targets[0].sources,
        vec![ProviderSyncTargetSource::Config, ProviderSyncTargetSource::Rollout]
    );
    assert_eq!(
        list.targets[1].sources,
        vec![ProviderSyncTargetSource::Rollout, ProviderSyncTargetSource::Sqlite]
    );
    assert!(list.targets.iter().skip(1).all(|t| !t.is_current_provider));
    assert!(list.targets.iter().all(|t| !t.is_manual && !t.is_saved));
}
