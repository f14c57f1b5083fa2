use subc::rules::{expand_rule_line, expand_rules, rule_target, rules_writable};
use subc::structs::RuleSource;
use subc::generate_rules;

fn source(ruleset: &str, group: &str, content: &str) -> RuleSource {
    RuleSource { ruleset: String::from(ruleset), group: String::from(group), content: String::from(content) }
}

#[test]
fn generate_rules_tags_and_swaps() {
    let sources = vec![
        source("rules.list", "Proxy", "# comment\nDOMAIN,a.com\nIP-CIDR,1.2.3.0/24,no-resolve\n"),
        source("MATCH", "DIRECT", ""),
    ];
    assert!(rules_writable(&sources));
    assert_eq!(
        generate_rules(&sources),
        "rules:\n  - DOMAIN,a.com,Proxy\n  - IP-CIDR,1.2.3.0/24,Proxy,no-resolve\n  - MATCH,DIRECT\n"
    );
}

#[test]
fn generate_rules_without_sources() {
    assert_eq!(generate_rules(&vec![]), "rules:\n");
}

#[test]
fn match_ignores_content() {
    let sources = vec![source("MATCH", "Final", "DOMAIN,ignored.com")];
    assert_eq!(generate_rules(&sources), "rules:\n  - MATCH,Final\n");
}

#[test]
fn written_rule_keeps_all_fields() {
    let sources = vec![source("r.list", "G", "IP-CIDR6,::1/128,no-resolve,extra\n")];
    let text = generate_rules(&sources);
    assert_eq!(text, "rules:\n  - IP-CIDR6,::1/128,extra,no-resolve,G\n");
}

#[test]
fn short_no_resolve_rule_is_not_writable() {
    let sources = vec![source("r.list", "G", "no-resolve\n")];
    assert!(!rules_writable(&sources));
}

#[test]
fn rule_target_splits_at_first_comma() {
    assert_eq!(rule_target("geo.list,Proxy"), (String::from("geo.list"), String::from("Proxy")));
    assert_eq!(rule_target("a.list,G,x"), (String::from("a.list"), String::from("G,x")));
    assert_eq!(rule_target("MATCH"), (String::from("MATCH"), String::new()));
}

#[test]
fn expand_rule_line_with_file() {
    let line = String::from("f.list,G");
    let file = Some(String::from("# x\nDOMAIN,b.com\nDOMAIN-SUFFIX,c.org\n"));
    assert_eq!(
        expand_rule_line(&line, &file),
        vec![String::from("DOMAIN,b.com,G"), String::from("DOMAIN-SUFFIX,c.org,G")]
    );
}

#[test]
fn expand_rule_line_without_file() {
    let line = String::from("MATCH,DIRECT");
    assert_eq!(expand_rule_line(&line, &None), vec![line.clone()]);
}

#[test]
fn expand_rules_in_order() {
    let rules = vec![String::from("f.list,G"), String::from("MATCH,DIRECT")];
    let files = vec![Some(String::from("A,1\n#B\nC,2")), None];
    assert_eq!(
        expand_rules(&rules, &files),
        vec![String::from("A,1,G"), String::from("C,2,G"), String::from("MATCH,DIRECT")]
    );
}

#[test]
fn rules_without_files_stay() {
    let rules = vec![String::from("x.list,G"), String::from("MATCH,DIRECT")];
    assert_eq!(expand_rules(&rules, &vec![None, None]), rules);
}
