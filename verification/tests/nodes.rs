use subc::decode::TextError;
use subc::nodes::{
    get_nodes, get_nodes_from, node_builder, try_get_nodes, try_get_nodes_from, try_node_builder,
    NodeError,
};
use subc::structs::Node;

const TWO_LINKS: &str = "c3M6Ly9ZV1Z6TFRJMU5pMW5ZMjA2Y0dGemN3QDEuMi4zLjQ6ODM4OCNNeSUyME5vZGUKdm1lc3M6Ly9hYmMK";
const THREE_LINKS: &str = "c3M6Ly9ZV1Z6TFRJMU5pMW5ZMjA2Y0dGemN3QDEuMi4zLjQ6ODM4OCNNeSUyME5vZGUKdm1lc3M6Ly9hYmMKc3M6Ly9ZV1Z6TFRJMU5pMW5ZMjA2Y0dGemN3QDUuNi43Ljg6NDQzI1VTJTIwMQo=";

fn node(name: &str, server: &str, port: &str) -> Node {
    Node {
        name: String::from(name),
        server: String::from(server),
        port: String::from(port),
        node_type: String::from("ss"),
        cipher: String::from("aes-256-gcm"),
        password: String::from("pass"),
    }
}

#[test]
fn get_nodes_reads_ss_links() {
    let nodes = get_nodes(String::from(TWO_LINKS));
    assert_eq!(nodes, vec![node("My Node", "1.2.3.4", "8388")]);
}

#[test]
fn get_nodes_keeps_order() {
    let nodes = get_nodes(String::from(THREE_LINKS));
    assert_eq!(nodes, vec![node("My Node", "1.2.3.4", "8388"), node("US 1", "5.6.7.8", "443")]);
}

#[test]
fn get_nodes_from_reads_ss_links() {
    let nodes = get_nodes_from(String::from(THREE_LINKS));
    assert_eq!(nodes, vec![node("My Node", "1.2.3.4", "8388"), node("US 1", "5.6.7.8", "443")]);
}

#[test]
fn every_node_read_is_ss() {
    let nodes = get_nodes(String::from(THREE_LINKS));
    assert!(nodes.iter().all(|n| n.node_type == "ss"));
    assert!(nodes.len() <= 3);
}

#[test]
fn empty_subscription_has_no_nodes() {
    assert_eq!(get_nodes(String::new()), vec![]);
    assert_eq!(get_nodes_from(String::new()), vec![]);
    assert_eq!(try_get_nodes(String::new()), Ok(vec![]));
}

#[test]
fn body_must_be_base64() {
    assert_eq!(try_get_nodes(String::from("***")), Err(NodeError::Body(TextError::InvalidBase64)));
    assert_eq!(try_get_nodes_from(String::from("/w==")), Err(NodeError::Body(TextError::InvalidUtf8)));
}

#[test]
fn ss_link_needs_five_fields() {
    assert_eq!(try_get_nodes(String::from("c3M6Ly9hYmMK")), Err(NodeError::MissingField));
    assert_eq!(try_get_nodes_from(String::from("c3M6Ly9hYmMK")), Err(NodeError::MissingField));
}

#[test]
fn credentials_must_be_unpadded_base64() {
    assert_eq!(try_get_nodes(String::from("c3M6Ly8hISFAaDoxI24K")),
        Err(NodeError::Credentials(TextError::InvalidBase64))
    );
}

#[test]
fn credentials_need_a_password() {
    assert_eq!(try_get_nodes(String::from("c3M6Ly9ZV0pqQGg6MSNuCg==")), Err(NodeError::MissingPassword));
}

#[test]
fn name_must_percent_decode() {
    assert_eq!(try_get_nodes_from(String::from("c3M6Ly9ZV1Z6TFRJMU5pMW5ZMjA2Y0dGemN3QGg6MSMlRkYK")),
        Err(NodeError::InvalidName)
    );
}

#[test]
fn node_builder_ignores_other_types() {
    assert_eq!(node_builder(vec![String::from("vmess"), String::from("x")]), None);
    assert_eq!(try_node_builder(vec![String::from("vmess")]), Ok(None));
}

#[test]
fn node_builder_builds_ss_node() {
    let parts = vec![
        String::from("ss"),
        String::from("YWVzLTI1Ni1nY206cGFzcw"),
        String::from("1.2.3.4"),
        String::from("8388"),
        String::from("My%20Node"),
    ];
    assert_eq!(try_node_builder(parts.clone()), Ok(Some(node("My Node", "1.2.3.4", "8388"))));
    assert_eq!(node_builder(parts), Some(node("My Node", "1.2.3.4", "8388")));
}

#[test]
fn try_node_builder_reports_short_link() {
    assert_eq!(try_node_builder(vec![String::from("ss"), String::from("x")]), Err(NodeError::MissingField));
}

#[test]
fn both_readers_agree_on_single_scheme_links() {
    assert_eq!(get_nodes(String::from(THREE_LINKS)), get_nodes_from(String::from(THREE_LINKS)));
}

#[test]
fn both_readers_trim_links_alike() {
    let body = String::from("ICBzczovL1lXVnpMVEkxTmkxblkyMDZjR0Z6Y3dAMS4yLjMuNDo4Mzg4I015JTIwTm9kZSAgDQp2bWVzczovL2FiYwo=");
    let first = get_nodes(body.clone());
    assert_eq!(first, vec![node("My Node", "1.2.3.4", "8388")]);
    assert_eq!(get_nodes_from(body), first);
}
