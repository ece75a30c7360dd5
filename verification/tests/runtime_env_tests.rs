use std::collections::HashMap;
use tg_opencode::runtime_env::{
    auth_seed_source, auth_target, build_inline_config, build_isolated_opencode_env,
    resolve_dashscope_base_url, runtime_dirs, EnvVars,
};

fn vars(pairs: &[(&str, &str)]) -> Vec<(String, String)> {
    pairs.iter().map(|(k, v)| (k.to_string(), v.to_string())).collect()
}

#[test]
fn dashscope_url_choice() {
    let e = EnvVars::from_pairs(vars(&[("DASHSCOPE_BASE_URL", "  http://x  ")]));
    assert_eq!(resolve_dashscope_base_url(&e), "http://x");
    let e = EnvVars::from_pairs(vars(&[("DASHSCOPE_BASE_URL", "  "), ("DASHSCOPE_API_KEY", " sk-sp-1")]));
    assert_eq!(resolve_dashscope_base_url(&e), "https://coding.dashscope.aliyuncs.com/v1");
    let e = EnvVars::from_pairs(vars(&[("DASHSCOPE_API_KEY", "sk-other")]));
    assert_eq!(resolve_dashscope_base_url(&e), "https://dashscope.aliyuncs.com/compatible-mode/v1");
    let e = EnvVars::from_pairs(Vec::new());
    assert_eq!(resolve_dashscope_base_url(&e), "https://dashscope.aliyuncs.com/compatible-mode/v1");
}

#[test]
fn env_vars_later_pair_wins() {
    let mut e = EnvVars::from_pairs(vars(&[("A", "1"), ("A", "2"), ("B", "3")]));
    assert_eq!(e.get(&"A".to_string()), Some("2".to_string()));
    e.remove(&"A".to_string());
    assert_eq!(e.get(&"A".to_string()), None);
    e.insert("C".to_string(), "4".to_string());
    assert_eq!(e.get(&"C".to_string()), Some("4".to_string()));
}

#[test]
fn inline_config_is_canonical_json() {
    let cfg = build_inline_config("https://example.com/v1");
    let v: serde_json::Value = serde_json::from_str(&cfg).unwrap();
    assert_eq!(serde_json::to_string(&v).unwrap(), cfg);
    assert_eq!(v["$schema"], "https://opencode.ai/config.json");
    assert_eq!(v["provider"]["bailian-coding"]["options"]["baseURL"], "https://example.com/v1");
    assert_eq!(v["provider"]["bailian-coding"]["options"]["apiKey"], "{env:DASHSCOPE_API_KEY}");
    assert_eq!(v["provider"]["bailian-coding"]["models"]["glm-5"]["name"], "GLM-5");
    assert_eq!(v["provider"]["kimi"]["options"]["baseURL"], "https://api.moonshot.ai/v1");
    assert_eq!(v["provider"]["kimi"]["models"]["moonshot-v1-8k"]["name"], "Moonshot v1 8k");
}

#[test]
fn inline_config_escapes_the_url() {
    let url = "http://a\"b\\c\n";
    let cfg = build_inline_config(url);
    let v: serde_json::Value = serde_json::from_str(&cfg).unwrap();
    assert_eq!(v["provider"]["bailian-coding"]["options"]["baseURL"], url);
}

#[test]
fn runtime_folders() {
    let d = runtime_dirs("/w/p", false);
    assert_eq!(d.root, "/w/p/.opencode-runtime");
    assert_eq!(d.config, "/w/p/.opencode-runtime/config");
    assert_eq!(d.state, "/w/p/.opencode-runtime/state");
    assert_eq!(d.data, "/w/p/.opencode-runtime/data");
    assert_eq!(d.home, "/w/p/.opencode-runtime/home");
    assert_eq!(auth_target(&d.data, false), "/w/p/.opencode-runtime/data/opencode/auth.json");
    assert_eq!(auth_seed_source(Some("  /h/auth.json ")), Some("/h/auth.json".to_string()));
    assert_eq!(auth_seed_source(Some("   ")), None);
    assert_eq!(auth_seed_source(None), None);
}

#[test]
fn isolated_environment() {
    let out = build_isolated_opencode_env(
        "/w",
        vars(&[
            ("OPENCODE_X", "1"),
            ("OPENCODE_CONFIG_DIR", "/host"),
            ("AGENT", "a"),
            ("PATH", "/bin"),
            ("HOME", "/root"),
            ("DASHSCOPE_API_KEY", "sk-sp-1"),
        ]),
        false,
    );
    let m: HashMap<String, String> = out.into_iter().collect();
    assert_eq!(m.get("PATH").map(String::as_str), Some("/bin"));
    assert!(!m.contains_key("OPENCODE_X"));
    assert!(!m.contains_key("AGENT"));
    assert_eq!(m["OPENCODE_CONFIG_DIR"], "/w/.opencode-runtime/config");
    assert_eq!(m["OPENCODE_CLIENT"], "cli");
    assert_eq!(m["XDG_CONFIG_HOME"], "/w/.opencode-runtime/config");
    assert_eq!(m["XDG_STATE_HOME"], "/w/.opencode-runtime/state");
    assert_eq!(m["XDG_DATA_HOME"], "/w/.opencode-runtime/data");
    assert_eq!(m["HOME"], "/w/.opencode-runtime/home");
    assert_eq!(m["USERPROFILE"], "/w/.opencode-runtime/home");
    assert_eq!(m["APPDATA"], "/w/.opencode-runtime/config");
    assert_eq!(m["LOCALAPPDATA"], "/w/.opencode-runtime/data");
    assert_eq!(m["OPENCODE_CONFIG_CONTENT"], build_inline_config("https://coding.dashscope.aliyuncs.com/v1"));
    assert_eq!(m.len(), 12);
}

#[test]
fn runtime_folders_on_windows() {
    let d = runtime_dirs(r"C:\ws\1-main\app", true);
    assert_eq!(d.root, r"C:\ws\1-main\app\.opencode-runtime");
    assert_eq!(d.config, r"C:\ws\1-main\app\.opencode-runtime\config");
    assert_eq!(d.home, r"C:\ws\1-main\app\.opencode-runtime\home");
    assert_eq!(auth_target(&d.data, true), r"C:\ws\1-main\app\.opencode-runtime\data\opencode\auth.json");
    // A base that already ends with a separator gets none added.
    assert_eq!(runtime_dirs("D:/w/", true).root, "D:/w/.opencode-runtime");
    assert_eq!(runtime_dirs("", true).root, ".opencode-runtime");
}
