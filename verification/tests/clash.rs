use subc::service::clash::{
    build_provider, fill_groups, fill_rules, from_url, proxy_names, prune_selections, retain_groups,
    select_group_members, try_build_provider, try_from_url, url_rejection, ConfigError, GroupError,
    ProviderError, Selection,
};
use subc::structs::{AppState, Config, Node, ProxyGroup};

fn node(name: &str) -> Node {
    Node {
        name: String::from(name),
        server: String::from("1.2.3.4"),
        port: String::from("8388"),
        node_type: String::from("ss"),
        cipher: String::from("aes-256-gcm"),
        password: String::from("pass"),
    }
}

fn strings(list: &[&str]) -> Vec<String> {
    list.iter().map(|s| String::from(*s)).collect()
}

fn select(name: &str, proxies: &[&str]) -> ProxyGroup {
    ProxyGroup::Select { name: String::from(name), proxies: strings(proxies) }
}

fn state() -> AppState {
    AppState { nodes: vec![node("HK 1"), node("US 1"), node("HK 2")] }
}

#[test]
fn provider_hands_out_matching_nodes() {
    let provider = build_provider(&state(), Some(String::from("^HK")));
    assert_eq!(provider.proxies, vec![node("HK 1"), node("HK 2")]);
    let checked = try_build_provider(&state(), Some(String::from("^HK"))).unwrap();
    assert_eq!(checked.proxies, provider.proxies);
}

#[test]
fn provider_needs_a_pattern() {
    assert_eq!(try_build_provider(&state(), None), Err(ProviderError::MissingPattern));
}

#[test]
fn provider_rejects_invalid_pattern() {
    assert_eq!(try_build_provider(&state(), Some(String::from("("))), Err(ProviderError::InvalidPattern));
}

#[test]
fn provider_without_nodes_is_empty() {
    let empty = AppState { nodes: vec![] };
    assert_eq!(build_provider(&empty, Some(String::from("("))).proxies, vec![]);
    assert_eq!(try_build_provider(&empty, Some(String::from("("))).unwrap().proxies, vec![]);
}

#[test]
fn provided_nodes_all_match() {
    let provider = build_provider(&state(), Some(String::from("1$")));
    assert_eq!(provider.proxies.len(), 2);
    assert!(provider.proxies.iter().all(|n| n.name.ends_with('1')));
}

#[test]
fn url_must_be_http() {
    assert_eq!(url_rejection("ftp://example.com"), Some(String::from("Invalid url: ftp://example.com")));
    assert_eq!(url_rejection("http://example.com/sub"), None);
    assert_eq!(url_rejection("https://example.com/sub"), None);
    assert_eq!(url_rejection(""), Some(String::from("Invalid url: ")));
}

#[test]
fn proxy_names_are_json_literals() {
    assert_eq!(proxy_names(&vec![node("HK 1"), node("a\"b")]), strings(&["\"HK 1\"", "\"a\\\"b\""]));
}

#[test]
fn group_members_follow_entries() {
    let groups = vec![select("Proxy", &["[]Auto", "HK"]), select("None", &["SG"]), select("Proxy", &["US"])];
    let names = proxy_names(&state().nodes);
    let selections = select_group_members(&groups, &names).unwrap();
    assert_eq!(selections.len(), 1);
    assert_eq!(selections[0].name, "Proxy");
    assert_eq!(selections[0].members, strings(&["US 1"]));
}

#[test]
fn group_members_keep_first_order() {
    let groups = vec![select("A", &["[]B", "HK"]), select("B", &["US"])];
    let names = proxy_names(&state().nodes);
    let selections = select_group_members(&groups, &names).unwrap();
    assert_eq!(selections.len(), 2);
    assert_eq!(selections[0].members, strings(&["[]B", "HK 1", "HK 2"]));
    assert_eq!(selections[1].members, strings(&["US 1"]));
}

#[test]
fn group_members_reject_invalid_pattern() {
    let groups = vec![select("A", &["("])];
    let names = proxy_names(&state().nodes);
    assert!(matches!(select_group_members(&groups, &names), Err(GroupError::InvalidPattern)));
    assert!(select_group_members(&groups, &vec![]).is_ok());
}

#[test]
fn pruning_drops_missing_groups() {
    let selections = vec![
        Selection { name: String::from("A"), members: strings(&["[]B", "[]C", "[]DIRECT", "[]REJECT", "HK 1"]) },
        Selection { name: String::from("B"), members: strings(&["US 1"]) },
    ];
    let pruned = prune_selections(&selections);
    assert_eq!(pruned.len(), 2);
    assert_eq!(pruned[0].members, strings(&["[]B", "[]DIRECT", "[]REJECT", "HK 1"]));
    assert_eq!(pruned[1].members, strings(&["US 1"]));
}

#[test]
fn retain_groups_drops_empty_lists() {
    let groups = vec![select("A", &[]), select("B", &["x"]), select("C", &[])];
    let kept = retain_groups(groups);
    assert_eq!(kept, vec![select("B", &["x"])]);
    assert_eq!(retain_groups(kept.clone()), kept);
}

#[test]
fn fill_groups_sets_proxies_and_keeps_nonempty_groups() {
    let config = Config {
        proxies: vec![],
        proxy_groups: vec![select("A", &["HK"]), select("B", &[])],
        rules: strings(&["MATCH,DIRECT"]),
    };
    let filled = fill_groups(config, state().nodes);
    assert_eq!(filled.proxies, state().nodes);
    assert_eq!(filled.proxy_groups, vec![select("A", &["HK"])]);
    assert_eq!(filled.rules, strings(&["MATCH,DIRECT"]));
}

#[test]
fn fill_rules_expands_files() {
    let config = Config { proxies: vec![], proxy_groups: vec![], rules: strings(&["g.list,Proxy", "MATCH,DIRECT"]) };
    let files = vec![Some(String::from("DOMAIN,a.com\n# c\n")), None];
    let filled = fill_rules(config, &files);
    assert_eq!(filled.rules, strings(&["DOMAIN,a.com,Proxy", "MATCH,DIRECT"]));
}

#[test]
fn from_url_builds_configuration() {
    let config = Config {
        proxies: vec![],
        proxy_groups: vec![select("A", &["US"]), select("B", &[])],
        rules: strings(&["g.list,A"]),
    };
    let files = vec![Some(String::from("DOMAIN,a.com"))];
    let built = from_url("https://sub.example", config, state().nodes, &files).unwrap();
    assert_eq!(built.rules, strings(&["DOMAIN,a.com,A"]));
    assert_eq!(built.proxies, state().nodes);
    assert_eq!(built.proxy_groups, vec![select("A", &["US"])]);
    assert_eq!(built.rules, strings(&["DOMAIN,a.com,A"]));
}

#[test]
fn from_url_rejects_other_schemes() {
    assert_eq!(
        from_url("file:///etc", Config::default(), vec![], &vec![]),
        Err(String::from("Invalid url: file:///etc"))
    );
    assert_eq!(try_from_url("file:///etc", Config::default(), vec![], &vec![]), Err(ConfigError::InvalidUrl));
}

#[test]
fn from_url_rejects_invalid_pattern() {
    let config = Config { proxies: vec![], proxy_groups: vec![select("A", &["("])], rules: vec![] };
    assert_eq!(try_from_url("http://x", config, state().nodes, &vec![]), Err(ConfigError::InvalidPattern));
    let no_nodes = Config { proxies: vec![], proxy_groups: vec![select("A", &["("])], rules: vec![] };
    assert!(try_from_url("http://x", no_nodes, vec![], &vec![]).is_ok());
}

#[test]
fn default_config_is_empty() {
    let config = Config::default();
    assert!(config.proxies.is_empty() && config.proxy_groups.is_empty() && config.rules.is_empty());
}

#[test]
fn group_accessors() {
    let g = ProxyGroup::UrlTest {
        name: String::from("Auto"),
        url: String::from("http://t"),
        interval: 300,
        tolerance: 50,
        proxies: strings(&["a"]),
    };
    assert_eq!(g.name(), "Auto");
    assert_eq!(g.proxies(), &strings(&["a"]));
}
