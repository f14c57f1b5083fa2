//! The data the services pass around: proxy nodes, proxy groups and configurations.
use vstd::prelude::*;

verus! {

/// A shadowsocks proxy node, every field kept as the text it was read from.
#[derive(Clone, Debug, PartialEq, Eq)]
pub struct Node {
    pub name: String,
    pub server: String,
    pub port: String,
    pub node_type: String,
    pub cipher: String,
    pub password: String,
}

/// The fields of a node as character sequences.
pub struct NodeView {
    pub name: Seq<char>,
    pub server: Seq<char>,
    pub port: Seq<char>,
    pub node_type: Seq<char>,
    pub cipher: Seq<char>,
    pub password: Seq<char>,
}

impl View for Node {
    type V = NodeView;

    open spec fn view(&self) -> NodeView {
        NodeView {
            name: self.name@,
            server: self.server@,
            port: self.port@,
            node_type: self.node_type@,
            cipher: self.cipher@,
            password: self.password@,
        }
    }
}

/// The views of a sequence of nodes.
pub open spec fn node_views(nodes: Seq<Node>) -> Seq<NodeView> {
    nodes.map_values(|n: Node| n@)
}

impl Node {
    /// A node with the same fields.
    pub fn duplicate(&self) -> (r: Node)
        ensures
            r@ == self@,
    {
        Node {
            name: self.name.clone(),
            server: self.server.clone(),
            port: self.port.clone(),
            node_type: self.node_type.clone(),
            cipher: self.cipher.clone(),
            password: self.password.clone(),
        }
    }
}

/// A proxy group of a configuration, by the way it picks among its proxies.
#[derive(Clone, Debug, PartialEq, Eq)]
pub enum ProxyGroup {
    Select { name: String, proxies: Vec<String> },
    LoadBalance { name: String, strategy: String, url: String, interval: u64, proxies: Vec<String> },
    UrlTest { name: String, url: String, interval: u64, tolerance: u64, proxies: Vec<String> },
    FallBack { name: String, url: String, interval: u64, tolerance: u64, proxies: Vec<String> },
}

impl ProxyGroup {
    /// The group's name.
    pub open spec fn spec_name(&self) -> Seq<char> {
        match self {
            ProxyGroup::Select { name, .. } => name@,
            ProxyGroup::LoadBalance { name, .. } => name@,
            ProxyGroup::UrlTest { name, .. } => name@,
            ProxyGroup::FallBack { name, .. } => name@,
        }
    }

    /// The group's proxy entries.
    pub open spec fn spec_proxies(&self) -> Seq<String> {
        match self {
            ProxyGroup::Select { proxies, .. } => proxies@,
            ProxyGroup::LoadBalance { proxies, .. } => proxies@,
            ProxyGroup::UrlTest { proxies, .. } => proxies@,
            ProxyGroup::FallBack { proxies, .. } => proxies@,
        }
    }

    /// The group's name.
    pub fn name(&self) -> (r: &String)
        ensures
            r@ == self.spec_name(),
    {
        match self {
            ProxyGroup::Select { name, .. } => name,
            ProxyGroup::LoadBalance { name, .. } => name,
            ProxyGroup::UrlTest { name, .. } => name,
            ProxyGroup::FallBack { name, .. } => name,
        }
    }

    /// The group's proxy entries.
    pub fn proxies(&self) -> (r: &Vec<String>)
        ensures
            r@ == self.spec_proxies(),
    {
        match self {
            ProxyGroup::Select { proxies, .. } => proxies,
            ProxyGroup::LoadBalance { proxies, .. } => proxies,
            ProxyGroup::UrlTest { proxies, .. } => proxies,
            ProxyGroup::FallBack { proxies, .. } => proxies,
        }
    }
}

/// The proxies that a provider endpoint hands out.
#[derive(Clone, Debug, PartialEq, Eq)]
pub struct ProxyProvider {
    pub proxies: Vec<Node>,
}

/// A client configuration: its proxies, its proxy groups and its rules.
#[derive(Clone, Debug, PartialEq, Eq)]
pub struct Config {
    pub proxies: Vec<Node>,
    pub proxy_groups: Vec<ProxyGroup>,
    pub rules: Vec<String>,
}

impl Default for Config {
    fn default() -> (r: Self)
        ensures
            r.proxies@.len() == 0,
            r.proxy_groups@.len() == 0,
            r.rules@.len() == 0,
    {
        Config { proxies: Vec::new(), proxy_groups: Vec::new(), rules: Vec::new() }
    }
}

/// What the server keeps between requests: the nodes fetched at start-up.
#[derive(Clone, Debug, PartialEq, Eq)]
pub struct AppState {
    pub nodes: Vec<Node>,
}

/// A proxy group as a groups file describes it.
#[derive(Clone, Debug, PartialEq, Eq)]
pub struct GroupSpec {
    pub name: String,
    pub group_type: String,
    pub url: String,
    pub interval: u64,
    pub tolerance: u64,
    pub strategy: String,
    pub proxies: Vec<String>,
}

/// A rule set as a rule sets file names it, with the text of its rule file.
#[derive(Clone, Debug, PartialEq, Eq)]
pub struct RuleSource {
    /// The rule file's path, or `MATCH` for the catch-all rule.
    pub ruleset: String,
    /// The proxy group the rules send traffic to.
    pub group: String,
    /// The rule file's text; not read for `MATCH`.
    pub content: String,
}

} // verus!
