use subc::structs::{GroupSpec, Node};
use subc::proxies::{filtered_patterns, pattern_rejected};
use subc::pattern::compile_pattern;
use subc::{filter_node, generate_proxies, generate_proxy_groups};

fn names(list: &[&str]) -> Vec<String> {
    list.iter().map(|s| String::from(*s)).collect()
}

fn node(name: &str) -> Node {
    Node {
        name: String::from(name),
        server: String::from("1.2.3.4"),
        port: String::from("8388"),
        node_type: String::from("ss"),
        cipher: String::from("aes-256-gcm"),
        password: String::from("pass"),
    }
}

fn group(name: &str, group_type: &str, proxies: &[&str]) -> GroupSpec {
    GroupSpec {
        name: String::from(name),
        group_type: String::from(group_type),
        url: String::from("http://www.gstatic.com/generate_204"),
        interval: 300,
        tolerance: 50,
        strategy: String::from("consistent-hashing"),
        proxies: names(proxies),
    }
}

#[test]
fn filter_node_keeps_matching_names() {
    let all = names(&["HK 1", "US 1", "HK 2"]);
    assert_eq!(filter_node("^HK", all), names(&["HK 1", "HK 2"]));
}

#[test]
fn filter_node_with_invalid_pattern_keeps_all() {
    let all = names(&["HK 1", "US 1"]);
    assert_eq!(filter_node("(", all.clone()), all);
}

#[test]
fn filter_node_twice_is_filter_once() {
    let all = names(&["HK 1", "US 1", "HK 2", "JP"]);
    let once = filter_node("HK|JP", all);
    assert_eq!(filter_node("HK|JP", once.clone()), once);
}

#[test]
fn filter_node_without_match_is_empty() {
    assert_eq!(filter_node("SG", names(&["HK 1", "US 1"])), Vec::<String>::new());
}

#[test]
fn generate_proxies_writes_json_fields() {
    let (text, listed) = generate_proxies(vec![node("My Node")]);
    assert_eq!(
        text,
        "proxies:\n  - {name: \"My Node\", server: \"1.2.3.4\", port: \"8388\", type: \"ss\", cipher: \"aes-256-gcm\", password: \"pass\"}\n"
    );
    assert_eq!(listed, names(&["My Node"]));
}

#[test]
fn generate_proxies_escapes_names() {
    let (text, listed) = generate_proxies(vec![node("a\"b")]);
    assert!(text.starts_with("proxies:\n  - {name: \"a\\\"b\", server:"));
    assert_eq!(listed, names(&["a\\b"]));
}

#[test]
fn generate_proxies_of_nothing() {
    let (text, listed) = generate_proxies(vec![]);
    assert_eq!(text, "proxies:\n");
    assert!(listed.is_empty());
}

#[test]
fn plain_names_are_listed_as_they_are() {
    let (_, listed) = generate_proxies(vec![node("香港 01"), node("US-2")]);
    assert_eq!(listed, names(&["香港 01", "US-2"]));
}

#[test]
fn generate_proxy_groups_select() {
    let groups = vec![group("Proxy", "select", &["[]DIRECT", "HK"])];
    let text = generate_proxy_groups(&groups, names(&["HK 1", "US 1", "HK 2"]));
    assert_eq!(
        text,
        "proxy-groups:\n  - name: Proxy\n    type: select\n    proxies:\n      - DIRECT\n      - HK 1\n      - HK 2\n"
    );
}

#[test]
fn generate_proxy_groups_url_test_settings() {
    let groups = vec![group("Auto", "url-test", &["US"])];
    let text = generate_proxy_groups(&groups, names(&["HK 1", "US 1"]));
    assert_eq!(
        text,
        "proxy-groups:\n  - name: Auto\n    type: url-test\n    url: http://www.gstatic.com/generate_204\n    interval: 300\n    tolerance: 50\n    proxies:\n      - US 1\n"
    );
}

#[test]
fn generate_proxy_groups_load_balance_settings() {
    let groups = vec![group("LB", "load-balance", &["HK"])];
    let text = generate_proxy_groups(&groups, names(&["HK 1"]));
    assert_eq!(
        text,
        "proxy-groups:\n  - name: LB\n    type: load-balance\n    strategy: consistent-hashing\n    url: http://www.gstatic.com/generate_204\n    interval: 300\n    proxies:\n      - HK 1\n"
    );
}

#[test]
fn generate_proxy_groups_skips_group_with_unmatched_pattern() {
    let groups = vec![group("Empty", "select", &["[]DIRECT", "SG"]), group("Proxy", "select", &["[]Auto"])];
    let text = generate_proxy_groups(&groups, names(&["HK 1"]));
    assert_eq!(text, "proxy-groups:\n  - name: Proxy\n    type: select\n    proxies:\n      - Auto\n");
}

#[test]
fn rejected_patterns_are_reported() {
    assert!(pattern_rejected("("));
    assert!(pattern_rejected("a{"));
    assert!(!pattern_rejected("^HK"));
    assert!(!pattern_rejected(""));
}

#[test]
fn separator_class_compiles() {
    assert!(compile_pattern("[#:@]").is_some());
    assert!(compile_pattern("no-resolve").is_some());
}

#[test]
fn filtered_patterns_stop_at_first_empty_selection() {
    let groups = vec![
        group("A", "select", &["[]DIRECT", "(", "SG", "HK"]),
        group("B", "select", &["[]A", "US"]),
    ];
    let consulted = filtered_patterns(&groups, &names(&["HK 1", "US 1"]));
    assert_eq!(consulted, names(&["(", "SG", "US"]));
}
