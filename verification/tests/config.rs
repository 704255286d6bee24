//! Settings, channels and secrets.

use dscode_core::config::atomic::{temp_path, write_atomic, write_private_atomic, WriteStep};
use dscode_core::config::credentials::Credentials;
use dscode_core::config::patch::{get_str, overlay, remove_path, set_value};
use dscode_core::config::providers::{
    default_base_url, ProviderConfig, ProviderConfigs, CHANNELS,
};
use dscode_core::config::settings::{
    apply_proxy_env, apply_proxy_env_tokio, effective_proxy, home_dir, names_proxy, AgentConfig,
    Config, ConfigError, EnvChange, ProxyConfig,
};
use dscode_core::extensions::paths::PathPart;
use toml_edit::{DocumentMut, Value};

// ── Channels ──

const ALL_CHANNELS: [&str; 4] = CHANNELS;

#[test]
fn every_accessor_agrees_on_the_channel_set() {
    let providers = ProviderConfigs::default();
    let from_iter: Vec<&str> = providers.iter().into_iter().map(|(k, _)| k).collect();
    assert_eq!(from_iter, ALL_CHANNELS);
    for key in ALL_CHANNELS {
        assert!(providers.get(key).is_some(), "{key} missing from get()");
    }
    assert!(providers.get("nope").is_none());
}

#[test]
fn defaults_carry_a_usable_base_url() {
    let p = ProviderConfigs::default();
    for (key, cfg) in p.iter() {
        assert_eq!(cfg.base_url, default_base_url(key), "{key}");
        assert!(!cfg.base_url.is_empty(), "{key} has no default base_url");
        assert!(cfg.api_key.is_empty(), "{key} must not ship a key");
    }
}

#[test]
fn unknown_channel_has_no_default_url() {
    assert_eq!(default_base_url("nope"), "");
}

#[test]
fn channels_are_changed_in_place() {
    let mut p = ProviderConfigs::default();
    for (key, cfg) in p.iter_mut() {
        cfg.api_key = format!("key of {key}");
    }
    assert_eq!(p.anthropic.api_key, "key of anthropic");
    assert!(p.deepseek.enabled && !p.openai.enabled);
}

#[test]
fn none_falls_back_to_model_list() {
    let p = ProviderConfig {
        model_list: vec!["a".into(), "b".into()],
        enabled_models: None,
        ..Default::default()
    };
    assert_eq!(p.effective_enabled_models(), vec!["a", "b"]);
}

#[test]
fn some_empty_means_nothing() {
    let p = ProviderConfig {
        model_list: vec!["a".into(), "b".into()],
        enabled_models: Some(vec![]),
        ..Default::default()
    };
    assert!(p.effective_enabled_models().is_empty());
}

#[test]
fn some_whitelist() {
    let p = ProviderConfig {
        model_list: vec!["a".into(), "b".into(), "c".into()],
        enabled_models: Some(vec!["b".into()]),
        ..Default::default()
    };
    assert_eq!(p.effective_enabled_models(), vec!["b"]);
}

#[test]
fn blank_models_are_not_offered() {
    let p = ProviderConfig {
        model_list: vec!["  ".into(), " x ".into()],
        ..Default::default()
    };
    assert_eq!(p.effective_enabled_models(), vec!["x"]);
}

// ── Secrets ──

#[test]
fn empty_key_removes_the_entry() {
    let mut c = Credentials::default();
    c.set("deepseek", "sk-a");
    assert_eq!(c.get("deepseek"), "sk-a");
    c.set("deepseek", "   ");
    assert_eq!(c.get("deepseek"), "");
    assert!(!c.providers.contains_key("deepseek"));
}

#[test]
fn keys_are_trimmed_on_read_and_write() {
    let mut c = Credentials::default();
    c.set("openai", "  sk-b\n");
    assert_eq!(c.get("openai"), "sk-b");
}

#[test]
fn stored_keys_win_and_others_are_moved() {
    let mut config = Config::default();
    config.providers.openai.api_key = " from settings ".into();
    config.providers.deepseek.api_key = "old".into();
    let mut c = Credentials::default();
    c.set("deepseek", "stored");
    c.set("some_new_channel", "sk-z");
    assert!(config.apply_credentials(&mut c));
    assert_eq!(config.providers.deepseek.api_key, "stored");
    assert_eq!(c.get("openai"), "from settings");
    assert_eq!(c.get("some_new_channel"), "sk-z");
    assert!(!config.apply_credentials(&mut c));
}

#[test]
fn saving_records_keys_and_deletes_none() {
    let mut config = Config::default();
    let mut c = Credentials::default();
    c.set("openai", "kept");
    config.providers.ollama.api_key = "new".into();
    assert!(config.save_credentials(&mut c));
    assert_eq!(c.get("openai"), "kept");
    assert_eq!(c.get("ollama"), "new");
    assert!(!config.save_credentials(&mut c));
    assert!(!Config::set_api_key(&mut c, "openai", " kept "));
    assert!(Config::set_api_key(&mut c, "openai", ""));
    assert_eq!(c.get("openai"), "");
}

#[test]
fn blank_files_hold_no_secrets() {
    assert!(Credentials::is_blank(" \n\t"));
    assert!(!Credentials::is_blank("providers: {}"));
}

// ── The proxy ──

#[test]
fn web_proxy_off_by_default() {
    let mut c = Config::default();
    c.proxy = ProxyConfig {
        url: "http://127.0.0.1:7890".into(),
        global: false,
        web_use_proxy: false,
    };
    assert!(c.proxy_for_web().is_none());
}

#[test]
fn web_proxy_toggle() {
    let mut c = Config::default();
    c.proxy = ProxyConfig {
        url: "http://127.0.0.1:7890".into(),
        global: false,
        web_use_proxy: true,
    };
    assert_eq!(c.proxy_for_web().as_deref(), Some("http://127.0.0.1:7890"));
}

#[test]
fn web_proxy_global_forces() {
    let mut c = Config::default();
    c.proxy = ProxyConfig {
        url: "socks5://127.0.0.1:1080".into(),
        global: true,
        web_use_proxy: false,
    };
    assert_eq!(c.proxy_for_web().as_deref(), Some("socks5://127.0.0.1:1080"));
}

#[test]
fn every_use_asks_for_the_proxy_itself() {
    let mut c = Config::default();
    c.proxy.url = " HTTP://p:1 ".into();
    assert!(c.proxy_is_configured());
    assert!(c.proxy_for_provider("openai").is_none());
    c.providers.openai.use_proxy = true;
    assert_eq!(c.proxy_for_provider("openai").as_deref(), Some("HTTP://p:1"));
    assert_eq!(c.proxy_for_model("gpt-4").as_deref(), Some("HTTP://p:1"));
    assert!(c.proxy_for_provider("nope").is_none());
    assert!(c.proxy_for_mcp().is_none());
    c.extensions.mcp_use_proxy = true;
    assert!(c.proxy_for_mcp().is_some());
    assert!(c.proxy_for_skills().is_none());
    c.extensions.skills_use_proxy = true;
    assert!(c.proxy_for_skills().is_some());
    assert!(c.web_proxy_url_if_configured().is_some());
    c.proxy.url = "ftp://p".into();
    assert!(!c.proxy_is_configured());
    assert!(c.web_proxy_url_if_configured().is_none());
    assert!(names_proxy("socks5h://x"));
    assert!(!names_proxy("HTTP://x"));
}

#[test]
fn child_processes_see_the_proxy_or_none() {
    let set = apply_proxy_env(&Some(" http://p ".into()));
    assert_eq!(set.len(), 6);
    assert_eq!(set[0], EnvChange::Assign("HTTP_PROXY".into(), "http://p".into()));
    let cleared = apply_proxy_env(&Some("  ".into()));
    assert_eq!(cleared.len(), 8);
    assert_eq!(cleared[7], EnvChange::Remove("no_proxy".into()));
    let server = apply_proxy_env_tokio(&Some("http://p".into()));
    assert_eq!(server.len(), 6);
    assert_eq!(server[5], EnvChange::Assign("all_proxy".into(), "http://p".into()));
    assert_eq!(apply_proxy_env_tokio(&None).len(), 8);
    assert_eq!(effective_proxy(&Some(" x".into())).as_deref(), Some("x"));
}

// ── The system prompt ──

#[test]
fn resolve_empty_uses_default() {
    let a = AgentConfig::default();
    assert_eq!(a.resolve_system_prompt("DEFAULT"), "DEFAULT");
}

#[test]
fn resolve_appends_by_default() {
    let a = AgentConfig {
        global_prompt: "  speak Chinese  ".into(),
        replace_system_prompt: false,
        ..Default::default()
    };
    let out = a.resolve_system_prompt("DEFAULT");
    assert!(out.starts_with("DEFAULT"));
    assert!(out.contains("speak Chinese"));
    assert!(out.contains("User global instructions"));
}

#[test]
fn resolve_replace() {
    let a = AgentConfig {
        global_prompt: "ONLY CUSTOM".into(),
        replace_system_prompt: true,
        ..Default::default()
    };
    assert_eq!(a.resolve_system_prompt("DEFAULT"), "ONLY CUSTOM");
}

// ── Which channel serves a model ──

/// A model that a channel lists but whose name does not reveal it.
#[test]
fn advertised_model_routes_to_the_channel_that_advertises_it() {
    let mut c = Config::default();
    c.default_model = "deepseek-flash".into();
    c.active_provider = "openai".into();
    c.providers.deepseek.api_key = "".into();
    c.providers.deepseek.base_url = "https://api.deepseek.com/v1".into();
    c.providers.deepseek.enabled = true;
    c.providers.openai.api_key = "k".into();
    c.providers.openai.base_url = "https://relay.example/v1".into();
    c.providers.openai.enabled = true;
    c.providers.openai.model_list = vec!["deepseek-flash".into(), "gpt-5.5".into()];
    assert_eq!(c.provider_key_for_model("deepseek-flash"), "openai");
    // A model that is genuinely DeepSeek's still goes to DeepSeek.
    assert_eq!(
        c.provider_key_for_model("deepseek-v4-chat"),
        "deepseek",
        "an unadvertised deepseek-* id must still infer to the deepseek channel"
    );
}

/// A channel that is switched off must not win a model by listing it.
#[test]
fn disabled_channel_does_not_win_an_advertised_model() {
    let mut c = Config::default();
    c.default_model = "deepseek-v4-pro".into();
    c.active_provider = "deepseek".into();
    c.providers.deepseek.api_key = "k".into();
    c.providers.deepseek.base_url = "https://api.deepseek.com/v1".into();
    c.providers.deepseek.enabled = true;
    c.providers.openai.api_key = "k".into();
    c.providers.openai.base_url = "https://relay.example/v1".into();
    c.providers.openai.enabled = false;
    c.providers.openai.model_list = vec!["mystery-model".into()];
    assert_eq!(c.provider_key_for_model("mystery-model"), "deepseek");
}

#[test]
fn names_decide_where_nothing_else_does() {
    let mut c = Config::default();
    c.active_provider = " Anthropic ".into();
    for (model, channel) in [
        ("deepseek-x", "deepseek"),
        ("openai/x", "openai"),
        ("gpt-4", "openai"),
        ("o3-mini", "openai"),
        ("chatgpt-x", "openai"),
        ("anthropic/x", "anthropic"),
        ("ollama/x", "ollama"),
        ("llama3", "ollama"),
        ("mystery", "anthropic"),
    ] {
        assert_eq!(c.provider_key_for_model(model), channel, "{model}");
    }
    c.active_provider = "deepseek".into();
    assert_eq!(c.provider_key_for_model("sonata-3"), "deepseek");
    c.partner = "sonata".into();
    assert_eq!(c.provider_key_for_model("sonata-3"), "anthropic");
    assert_eq!(c.provider_key_for_model("sonatas"), "deepseek");
    assert_eq!(c.route_model("nope", "mystery"), "deepseek");
    // Two channels that list a model: its name decides.
    c.providers.deepseek.model_list = vec!["gpt-4".into()];
    c.providers.ollama.enabled = true;
    c.providers.ollama.model_list = vec!["gpt-4".into()];
    assert_eq!(c.provider_key_for_model("gpt-4"), "openai");
    assert_eq!(c.provider_for_model("gpt-4").unwrap().base_url, "https://api.openai.com/v1");
    assert_eq!(
        c.provider_config_by_key("nope").unwrap().base_url,
        "https://api.deepseek.com/v1"
    );
}

// ── The settings file ──

const BASE: &str = r#"# DS Code config — hand edited
default_model = "deepseek-v4-pro"

# keep this comment
[providers.deepseek]
api_key = "sk-old"
base_url = "https://api.deepseek.com/v1"
enabled_models = ["a", "b"]

[some_future_section]
tuning = 7
"#;

/// A key this build does not know about, sitting in a section it knows nothing
/// about, survives a write.
#[test]
fn unknown_nested_key_survives() {
    let layer = r#"
default_model = "deepseek-v4-pro"

[providers.deepseek]
api_key = "sk-old"
base_url = "https://api.deepseek.com/v1"
enabled_models = ["a", "b"]
api_format = "responses"
"#;
    let out = overlay(BASE, layer).unwrap();
    assert!(out.contains("api_format = \"responses\""), "{out}");
    // ...and so does a section it knows nothing about at all.
    assert!(out.contains("[some_future_section]"), "{out}");
    assert!(out.contains("tuning = 7"), "{out}");
}

#[test]
fn comments_survive_an_update() {
    let layer = r#"
default_model = "kimi-k2"

[providers.deepseek]
api_key = "sk-new"
base_url = "https://api.deepseek.com/v1"
enabled_models = ["a", "b"]
"#;
    let out = overlay(BASE, layer).unwrap();
    assert!(out.contains("# DS Code config — hand edited"), "{out}");
    assert!(out.contains("# keep this comment"), "{out}");
    assert!(out.contains("api_key = \"sk-new\""), "{out}");
    assert!(!out.contains("sk-old"), "{out}");
}

/// A key that the layer leaves out is gone, not unchanged.
#[test]
fn absent_nested_key_is_removed() {
    let layer = r#"
default_model = "deepseek-v4-pro"

[providers.deepseek]
api_key = "sk-old"
base_url = "https://api.deepseek.com/v1"
"#;
    let out = overlay(BASE, layer).unwrap();
    assert!(!out.contains("enabled_models"), "{out}");
}

/// A root key the layer omits is kept — root is add/update only.
#[test]
fn root_key_is_not_pruned() {
    let layer = r#"
default_model = "deepseek-v4-pro"
"#;
    let out = overlay(BASE, layer).unwrap();
    assert!(out.contains("[providers.deepseek]"), "{out}");
    assert!(out.contains("[some_future_section]"), "{out}");
}

#[test]
fn malformed_base_is_an_error_not_a_clobber() {
    assert!(overlay("this is not = = toml", "default_model = \"x\"").is_err());
}

#[test]
fn set_and_remove_path() {
    let mut doc: DocumentMut = BASE.parse().unwrap();
    set_value(&mut doc, &["proxy", "url"], Value::from("http://127.0.0.1:7890"));
    assert_eq!(
        get_str(&doc, &["proxy", "url"]).as_deref(),
        Some("http://127.0.0.1:7890")
    );
    assert!(remove_path(&mut doc, &["providers", "deepseek", "enabled_models"]));
    assert!(!remove_path(&mut doc, &["providers", "deepseek", "enabled_models"]));
}

#[test]
fn overlays_replace_what_is_not_alike() {
    let base = "a = 1\nb = { c = \"x\" } # note\n[t]\nk = 1\n[[list]]\nn = 1\n";
    let layer = "b = 2\nt = 3\n[a]\nz = 1\n[[list]]\nn = 2\n";
    let out = overlay(base, layer).unwrap();
    let doc: DocumentMut = out.parse().unwrap();
    assert_eq!(doc["a"]["z"].as_integer(), Some(1), "{out}");
    assert_eq!(doc["b"].as_integer(), Some(2), "{out}");
    assert_eq!(doc["t"].as_integer(), Some(3), "{out}");
    assert!(out.contains("# note"), "{out}");
    assert!(out.contains("n = 2") && !out.contains("n = 1"), "{out}");
    // The same layer once more changes nothing.
    assert_eq!(overlay(&out, layer).unwrap(), out);
}

#[test]
fn paths_lead_through_inline_tables_for_reading_only() {
    let mut doc: DocumentMut = "a = { b = \"x\" }\n[t]\nn = 1\n".parse().unwrap();
    assert_eq!(get_str(&doc, &["a", "b"]).as_deref(), Some("x"));
    assert_eq!(get_str(&doc, &["t", "n"]), None);
    assert_eq!(get_str(&doc, &[]), None);
    assert!(!remove_path(&mut doc, &["a", "b"]));
    assert!(!remove_path(&mut doc, &[]));
    set_value(&mut doc, &["a", "c"], Value::from("y"));
    assert_eq!(get_str(&doc, &["a", "c"]).as_deref(), Some("y"));
    assert_eq!(get_str(&doc, &["a", "b"]), None);
    set_value(&mut doc, &[], Value::from("z"));
}

#[test]
fn saved_settings_hold_no_secret() {
    let layer = "default_model = \"m\"\n[providers.deepseek]\napi_key = \"sk-live\"\nenabled = true\n";
    let out = Config::save_config_only(BASE, layer).unwrap();
    assert!(!out.contains("api_key"), "{out}");
    assert!(!out.contains("sk-"), "{out}");
    assert!(out.contains("default_model = \"m\""), "{out}");
    assert!(out.contains("tuning = 7"), "{out}");
    let fresh = Config::save_config_only("  \n", layer).unwrap();
    assert!(!fresh.contains("sk-live") && fresh.contains("enabled = true"), "{fresh}");
    assert!(matches!(
        Config::save_config_only("= =", layer),
        Err(ConfigError::TomlEdit(_))
    ));
    assert!(Config::save_config_only("", "= =").is_err());
}

#[test]
fn the_old_place_of_the_proxy_is_cleared() {
    let raw = "[generation]\nproxy_url = \"http://p\"\nmax_tokens = 1\n";
    let mut c = Config::default();
    assert!(c.migrate_proxy_url_from_legacy(raw).is_none());
    c.generation.proxy_url = " http://p ".into();
    c.adopt_legacy_proxy();
    assert_eq!(c.proxy.url, "http://p");
    let out = c.migrate_proxy_url_from_legacy(raw).unwrap();
    assert!(!out.contains("proxy_url") && out.contains("max_tokens = 1"), "{out}");
    assert!(c.migrate_proxy_url_from_legacy(&out).is_none());
    assert!(c.migrate_proxy_url_from_legacy("= =").is_none());
}

// ── Files ──

fn home() -> Option<Vec<PathPart>> {
    Some(vec![PathPart::RootDir, PathPart::Normal("home".into())])
}

fn last(p: &[PathPart]) -> &PathPart {
    p.last().unwrap()
}

#[test]
fn things_are_kept_below_the_home_directory() {
    assert_eq!(last(&Credentials::path(&home()).unwrap()), &PathPart::Normal(".credentials.yaml".into()));
    assert_eq!(last(&Config::config_path(&home()).unwrap()), &PathPart::Normal("config.toml".into()));
    assert_eq!(last(&Config::data_dir(&home()).unwrap()), &PathPart::Normal(".dscode".into()));
    assert_eq!(last(&Config::sessions_dir(&home()).unwrap()), &PathPart::Normal("sessions".into()));
    assert_eq!(last(&Config::tasks_dir(&home()).unwrap()), &PathPart::Normal("tasks".into()));
    assert!(matches!(Config::data_dir(&None), Err(ConfigError::NoHomeDir)));
    assert_eq!(ConfigError::NoHomeDir.describe(), "Cannot find home directory");
    assert_eq!(ConfigError::Io("x".into()).describe(), "IO error: x");
    assert_eq!(home_dir(None, home()), home());
}

#[test]
fn a_write_goes_beside_its_target_first() {
    let target = Config::config_path(&home()).unwrap();
    let w = write_atomic(&target);
    assert!(!w.private);
    assert_ne!(w.temp, w.target);
    assert_eq!(w.temp.len(), w.target.len());
    match last(&w.temp) {
        PathPart::Normal(n) => {
            assert!(n.starts_with(".config.toml.dscode-") && n.ends_with(".tmp"), "{n}")
        }
        other => panic!("{:?}", other),
    }
    assert_eq!(w.on_written(Ok(())), WriteStep::Rename);
    assert_eq!(w.on_written(Err("full".into())), WriteStep::Discard("full".into()));
    assert_eq!(w.on_renamed(Ok(())), WriteStep::Done);
    assert!(write_private_atomic(&target).private);
    let bare = temp_path(&vec![PathPart::Normal("a".into())], "id");
    assert_eq!(bare, vec![PathPart::CurDir, PathPart::Normal(".a.dscode-id.tmp".into())]);
    let rootless = temp_path(&vec![PathPart::RootDir], "id");
    assert_eq!(rootless, vec![PathPart::CurDir, PathPart::Normal(".file.dscode-id.tmp".into())]);
}

#[test]
fn first_settings_get_the_stored_keys() {
    let mut c = Credentials::default();
    c.set("openai", "sk-stored");
    let (config, moved) = Config::load(None, &mut c);
    assert!(!moved);
    assert_eq!(config.providers.openai.api_key, "sk-stored");
    assert_eq!(config.providers.deepseek.api_key, "");
    assert_eq!(config.active_provider, "deepseek");
    let mut old = Config::default();
    old.generation.proxy_url = " http://p ".into();
    old.providers.ollama.api_key = " k ".into();
    let (config, moved) = Config::load(Some(old), &mut c);
    assert!(moved);
    assert_eq!(config.proxy.url, "http://p");
    assert_eq!(c.get("ollama"), "k");
    assert_eq!(config.providers.openai.api_key, "sk-stored");
}

#[test]
fn a_second_overlay_keeps_keys_and_values() {
    let base = "[t]\na = 1\nb = 2\n";
    let layer = "# top\n[t]\na = 3 # three\n\n# list\n[[t.l]]\nx = 1\n";
    let once = overlay(base, layer).unwrap();
    let twice = overlay(&once, layer).unwrap();
    let value = |s: &str| s.parse::<toml::Table>().unwrap();
    assert_eq!(value(&once), value(&twice));
    assert!(!once.contains("b = 2"));
}
