//! Writing the `proxies` and `proxy-groups` sections of a configuration.
use vstd::prelude::*;
use crate::codec::{json_escape, json_literal, json_string};
use crate::pattern::{compile_pattern, is_match, regex_compiles, regex_finds};
use crate::structs::{node_views, GroupSpec, Node, NodeView};
use crate::text::{
    chars_of, concat, copy_strings, decimal, decimal_chars, extend_chars, has_prefix,
    lemma_concat_push, lemma_empty_infix, push_str, replace_all, replace_all_chars, same_chars,
    starts_with, string_of, string_views,
};

verus! {

// ---------------------------------------------------------------------------
// Selecting nodes by a pattern.
// ---------------------------------------------------------------------------
/// Whether `pattern` selects the node called `name`: a pattern that does not
/// compile selects every node.
pub open spec fn selects(pattern: Seq<char>, name: Seq<char>) -> bool {
    !regex_compiles(pattern) || regex_finds(pattern, name)
}

/// The names among `names` that `pattern` selects, in order.
pub open spec fn selected_names(pattern: Seq<char>, names: Seq<Seq<char>>) -> Seq<Seq<char>>
    decreases names.len(),
{
    if names.len() == 0 {
        Seq::<Seq<char>>::empty()
    } else {
        let init = selected_names(pattern, names.drop_last());
        if selects(pattern, names.last()) {
            init.push(names.last())
        } else {
            init
        }
    }
}

/// The node names among `nodes` that the regular expression `pattern` matches,
/// in order; when `pattern` does not compile, the empty pattern is used instead,
/// which matches every name. `pattern_rejected` tells a caller when that happens,
/// so that it can warn about the pattern.
pub fn filter_node(pattern: &str, nodes: Vec<String>) -> (r: Vec<String>)
    ensures
        string_views(r@) == selected_names(pattern@, string_views(nodes@)),
{
    let compiled = match compile_pattern(pattern) {
        Some(c) => c,
        None => {
            proof {
                reveal_strlit("");
            }
            match compile_pattern("") {
                Some(c) => c,
                None => {
                    assert(false);
                    return Vec::new();
                },
            }
        },
    };
    proof {
        reveal_strlit("");
    }
    let ghost names = string_views(nodes@);
    let mut out: Vec<String> = Vec::new();
    assert(names.take(0) =~= Seq::<Seq<char>>::empty());
    assert(string_views(out@) =~= Seq::<Seq<char>>::empty());
    for i in 0..nodes.len()
        invariant
            names == string_views(nodes@),
            (regex_compiles(pattern@) && compiled.source() == pattern@) || (!regex_compiles(
                pattern@,
            ) && compiled.source() == Seq::<char>::empty()),
            string_views(out@) == selected_names(pattern@, names.take(i as int)),
    {
        let name = &nodes[i];
        let hit = is_match(&compiled, name.as_str());
        proof {
            lemma_empty_infix(name@);
        }
        assert(names.take(i + 1).drop_last() =~= names.take(i as int));
        assert(names.take(i + 1).last() == name@);
        assert(hit == selects(pattern@, name@));
        if hit {
            let ghost before = out@;
            let copy = name.clone();
            out.push(copy);
            assert(string_views(out@) =~= string_views(before).push(copy@));
        }
    }
    assert(names.take(nodes@.len() as int) =~= names);
    out
}

// ---------------------------------------------------------------------------
// The proxies section.
// ---------------------------------------------------------------------------
/// The line that lists one node in the proxies section, each field written as a
/// JSON string literal.
pub open spec fn proxy_entry(n: NodeView) -> Seq<char> {
    "  - {name: "@ + json_literal(n.name) + ", server: "@ + json_literal(n.server) + ", port: "@
        + json_literal(n.port) + ", type: "@ + json_literal(n.node_type) + ", cipher: "@
        + json_literal(n.cipher) + ", password: "@ + json_literal(n.password) + "}\n"@
}

/// The proxies section listing `nodes`.
pub open spec fn proxies_section(nodes: Seq<NodeView>) -> Seq<char> {
    "proxies:\n"@ + concat(nodes.map_values(|n: NodeView| proxy_entry(n)))
}

/// The name by which a group lists a node: the name's JSON literal without its
/// double quotes.
pub open spec fn listed_name(name: Seq<char>) -> Seq<char> {
    replace_all(json_literal(name), seq!['"'], Seq::<char>::empty())
}

/// The line listing `node`, given the JSON literal `name` of its name.
fn entry_chars(node: &Node, name: &Vec<char>) -> (r: Vec<char>)
    requires
        name@ == json_literal(node.name@),
    ensures
        r@ == proxy_entry(node@),
{
    let mut e: Vec<char> = Vec::new();
    push_str(&mut e, "  - {name: ");
    extend_chars(&mut e, name);
    push_str(&mut e, ", server: ");
    push_str(&mut e, json_string(node.server.as_str()).as_str());
    push_str(&mut e, ", port: ");
    push_str(&mut e, json_string(node.port.as_str()).as_str());
    push_str(&mut e, ", type: ");
    push_str(&mut e, json_string(node.node_type.as_str()).as_str());
    push_str(&mut e, ", cipher: ");
    push_str(&mut e, json_string(node.cipher.as_str()).as_str());
    push_str(&mut e, ", password: ");
    push_str(&mut e, json_string(node.password.as_str()).as_str());
    push_str(&mut e, "}\n");
    assert(e@ =~= proxy_entry(node@));
    e
}

/// Writes the proxies section for `res` and returns it with the names under which
/// the nodes are listed.
pub fn generate_proxies(res: Vec<Node>) -> (r: (String, Vec<String>))
    ensures
        r.0@ == proxies_section(node_views(res@)),
        string_views(r.1@) == node_views(res@).map_values(|n: NodeView| listed_name(n.name)),
{
    let ghost views = node_views(res@);
    let ghost entries = views.map_values(|n: NodeView| proxy_entry(n));
    let ghost names = views.map_values(|n: NodeView| listed_name(n.name));
    let mut text: Vec<char> = Vec::new();
    push_str(&mut text, "proxies:\n");
    let mut listed: Vec<String> = Vec::new();
    let quote: Vec<char> = vec!['"'];
    let nothing: Vec<char> = Vec::new();
    assert(quote@ =~= seq!['"'] && nothing@ =~= Seq::<char>::empty());
    assert(entries.take(0) =~= Seq::<Seq<char>>::empty());
    assert(names.take(0) =~= Seq::<Seq<char>>::empty());
    assert(string_views(listed@) =~= Seq::<Seq<char>>::empty());
    for i in 0..res.len()
        invariant
            views == node_views(res@),
            entries == views.map_values(|n: NodeView| proxy_entry(n)),
            names == views.map_values(|n: NodeView| listed_name(n.name)),
            quote@ == seq!['"'],
            nothing@ == Seq::<char>::empty(),
            text@ == "proxies:\n"@ + concat(entries.take(i as int)),
            string_views(listed@) == names.take(i as int),
    {
        let node = &res[i];
        let name = chars_of(json_string(node.name.as_str()).as_str());
        let entry = entry_chars(node, &name);
        extend_chars(&mut text, &entry);
        assert(entries.take(i + 1) =~= entries.take(i as int).push(entries[i as int]));
        proof {
            lemma_concat_push(entries.take(i as int), entries[i as int]);
        }
        assert(text@ =~= "proxies:\n"@ + concat(entries.take(i + 1)));
        let ghost before = listed@;
        let bare = string_of(&replace_all_chars(&name, &quote, &nothing));
        listed.push(bare);
        assert(string_views(listed@) =~= string_views(before).push(bare@));
        assert(names.take(i + 1) =~= names.take(i as int).push(names[i as int]));
    }
    assert(entries.take(res@.len() as int) =~= entries);
    assert(names.take(res@.len() as int) =~= names);
    (string_of(&text), listed)
}

// ---------------------------------------------------------------------------
// The proxy-groups section.
// ---------------------------------------------------------------------------
/// The lines one entry of a group's proxy list stands for: an entry starting with
/// `[]` names a group or policy and is written as it is with every `[]` turned into
/// the list marker; any other entry is a pattern that lists every node it selects,
/// and `None` when it selects none.
pub open spec fn entry_lines(entry: Seq<char>, nodes: Seq<Seq<char>>) -> Option<Seq<char>> {
    if has_prefix(entry, "[]"@) {
        Some(replace_all(entry, "[]"@, "      - "@) + "\n"@)
    } else {
        let picked = selected_names(entry, nodes);
        if picked.len() == 0 {
            None
        } else {
            Some(concat(picked.map_values(|n: Seq<char>| "      - "@ + n + "\n"@)))
        }
    }
}

/// The proxy lines of a group with proxy list `entries`: `None` as soon as one
/// pattern selects no node.
pub open spec fn proxy_lines(entries: Seq<Seq<char>>, nodes: Seq<Seq<char>>) -> Option<Seq<char>>
    decreases entries.len(),
{
    if entries.len() == 0 {
        Some(Seq::<char>::empty())
    } else {
        match proxy_lines(entries.drop_last(), nodes) {
            None => None,
            Some(text) => match entry_lines(entries.last(), nodes) {
                None => None,
                Some(more) => Some(text + more),
            },
        }
    }
}

/// The settings lines that the group's type calls for.
pub open spec fn type_settings(g: GroupSpec) -> Seq<char> {
    if g.group_type@ == "url-test"@ {
        "    url: "@ + g.url@ + "\n"@ + "    interval: "@ + decimal(g.interval as nat) + "\n"@
            + "    tolerance: "@ + decimal(g.tolerance as nat) + "\n"@
    } else if g.group_type@ == "load-balance"@ {
        "    strategy: "@ + g.strategy@ + "\n"@ + "    url: "@ + g.url@ + "\n"@
            + "    interval: "@ + decimal(g.interval as nat) + "\n"@
    } else {
        Seq::<char>::empty()
    }
}

/// The block that describes group `g`, or nothing when one of its patterns selects
/// no node.
pub open spec fn group_block(g: GroupSpec, nodes: Seq<Seq<char>>) -> Seq<char> {
    match proxy_lines(string_views(g.proxies@), nodes) {
        None => Seq::<char>::empty(),
        Some(lines) => "  - name: "@ + g.name@ + "\n"@ + "    type: "@ + g.group_type@ + "\n"@
            + type_settings(g) + "    proxies:\n"@ + lines,
    }
}

/// The proxy-groups section for `groups` over the node names `nodes`.
pub open spec fn groups_section(groups: Seq<GroupSpec>, nodes: Seq<Seq<char>>) -> Seq<char> {
    "proxy-groups:\n"@ + concat(groups.map_values(|g: GroupSpec| group_block(g, nodes)))
}

/// The lines for one entry of a proxy list.
fn entry_chars_for(entry: &String, nodes: &Vec<String>) -> (r: Option<Vec<char>>)
    ensures
        match r {
            Some(t) => entry_lines(entry@, string_views(nodes@)) == Some(t@),
            None => entry_lines(entry@, string_views(nodes@)) is None,
        },
{
    let text = chars_of(entry.as_str());
    let marker = chars_of("[]");
    if starts_with(&text, &marker) {
        proof {
            reveal_strlit("[]");
        }
        let mut out = replace_all_chars(&text, &marker, &chars_of("      - "));
        push_str(&mut out, "\n");
        return Some(out);
    }
    let picked = filter_node(entry.as_str(), copy_strings(nodes));
    if picked.len() == 0 {
        return None;
    }
    let ghost lines = string_views(picked@).map_values(|n: Seq<char>| "      - "@ + n + "\n"@);
    let mut out: Vec<char> = Vec::new();
    assert(lines.take(0) =~= Seq::<Seq<char>>::empty());
    for i in 0..picked.len()
        invariant
            lines == string_views(picked@).map_values(|n: Seq<char>| "      - "@ + n + "\n"@),
            out@ == concat(lines.take(i as int)),
    {
        push_str(&mut out, "      - ");
        push_str(&mut out, picked[i].as_str());
        push_str(&mut out, "\n");
        assert(lines.take(i + 1) =~= lines.take(i as int).push(lines[i as int]));
        proof {
            lemma_concat_push(lines.take(i as int), lines[i as int]);
        }
        assert(out@ =~= concat(lines.take(i + 1)));
    }
    assert(lines.take(picked@.len() as int) =~= lines);
    Some(out)
}

/// The settings lines of `g`.
fn settings_chars(g: &GroupSpec) -> (r: Vec<char>)
    ensures
        r@ == type_settings(*g),
{
    let kind = chars_of(g.group_type.as_str());
    let mut out: Vec<char> = Vec::new();
    if same_chars(&kind, &chars_of("url-test")) {
        push_str(&mut out, "    url: ");
        push_str(&mut out, g.url.as_str());
        push_str(&mut out, "\n");
        push_str(&mut out, "    interval: ");
        extend_chars(&mut out, &decimal_chars(g.interval));
        push_str(&mut out, "\n");
        push_str(&mut out, "    tolerance: ");
        extend_chars(&mut out, &decimal_chars(g.tolerance));
        push_str(&mut out, "\n");
        assert(out@ =~= type_settings(*g));
    } else if same_chars(&kind, &chars_of("load-balance")) {
        push_str(&mut out, "    strategy: ");
        push_str(&mut out, g.strategy.as_str());
        push_str(&mut out, "\n");
        push_str(&mut out, "    url: ");
        push_str(&mut out, g.url.as_str());
        push_str(&mut out, "\n");
        push_str(&mut out, "    interval: ");
        extend_chars(&mut out, &decimal_chars(g.interval));
        push_str(&mut out, "\n");
        assert(out@ =~= type_settings(*g));
    } else {
        assert(out@ =~= type_settings(*g));
    }
    out
}

/// The proxy lines of `g`, or `None` when one of its patterns selects no node.
fn proxy_lines_chars(g: &GroupSpec, nodes: &Vec<String>) -> (r: Option<Vec<char>>)
    ensures
        match r {
            Some(t) => proxy_lines(string_views(g.proxies@), string_views(nodes@)) == Some(t@),
            None => proxy_lines(string_views(g.proxies@), string_views(nodes@)) is None,
        },
{
    let ghost entries = string_views(g.proxies@);
    let ghost names = string_views(nodes@);
    let mut out: Vec<char> = Vec::new();
    assert(entries.take(0) =~= Seq::<Seq<char>>::empty());
    assert(out@ =~= Seq::<char>::empty());
    for i in 0..g.proxies.len()
        invariant
            entries == string_views(g.proxies@),
            names == string_views(nodes@),
            proxy_lines(entries.take(i as int), names) == Some(out@),
    {
        assert(entries.take(i + 1).drop_last() =~= entries.take(i as int));
        assert(entries.take(i + 1).last() == g.proxies@[i as int]@);
        match entry_chars_for(&g.proxies[i], nodes) {
            None => {
                proof {
                    lemma_proxy_lines_none_persists(entries, i as int + 1, names);
                }
                return None;
            },
            Some(more) => {
                extend_chars(&mut out, &more);
            },
        }
    }
    assert(entries.take(g.proxies@.len() as int) =~= entries);
    Some(out)
}

/// Once the entries up to `k` give no lines, all the entries give none.
proof fn lemma_proxy_lines_none_persists(entries: Seq<Seq<char>>, k: int, nodes: Seq<Seq<char>>)
    requires
        0 <= k <= entries.len(),
        proxy_lines(entries.take(k), nodes) is None,
    ensures
        proxy_lines(entries, nodes) is None,
    decreases entries.len() - k,
{
    if k < entries.len() {
        assert(entries.take(k + 1).drop_last() =~= entries.take(k));
        lemma_proxy_lines_none_persists(entries, k + 1, nodes);
    } else {
        assert(entries.take(k) =~= entries);
    }
}

/// The block describing `g`.
fn group_chars(g: &GroupSpec, nodes: &Vec<String>) -> (r: Vec<char>)
    ensures
        r@ == group_block(*g, string_views(nodes@)),
{
    match proxy_lines_chars(g, nodes) {
        None => Vec::new(),
        Some(lines) => {
            let mut out: Vec<char> = Vec::new();
            push_str(&mut out, "  - name: ");
            push_str(&mut out, g.name.as_str());
            push_str(&mut out, "\n");
            push_str(&mut out, "    type: ");
            push_str(&mut out, g.group_type.as_str());
            push_str(&mut out, "\n");
            extend_chars(&mut out, &settings_chars(g));
            push_str(&mut out, "    proxies:\n");
            extend_chars(&mut out, &lines);
            assert(out@ =~= group_block(*g, string_views(nodes@)));
            out
        },
    }
}

/// Writes the proxy-groups section: for each group its name, type, the settings its
/// type calls for and its proxy list, where an entry starting with `[]` is written
/// as it is with `[]` turned into the list marker and any other entry is a pattern
/// that lists the nodes it selects. A group with a pattern that selects no node is
/// left out.
pub fn generate_proxy_groups(groups: &Vec<GroupSpec>, nodes: Vec<String>) -> (r: String)
    ensures
        r@ == groups_section(groups@, string_views(nodes@)),
{
    let ghost names = string_views(nodes@);
    let ghost blocks = groups@.map_values(|g: GroupSpec| group_block(g, names));
    let mut out: Vec<char> = Vec::new();
    push_str(&mut out, "proxy-groups:\n");
    assert(blocks.take(0) =~= Seq::<Seq<char>>::empty());
    for i in 0..groups.len()
        invariant
            names == string_views(nodes@),
            blocks == groups@.map_values(|g: GroupSpec| group_block(g, names)),
            out@ == "proxy-groups:\n"@ + concat(blocks.take(i as int)),
    {
        let block = group_chars(&groups[i], &nodes);
        extend_chars(&mut out, &block);
        assert(blocks.take(i + 1) =~= blocks.take(i as int).push(blocks[i as int]));
        proof {
            lemma_concat_push(blocks.take(i as int), blocks[i as int]);
        }
        assert(out@ =~= "proxy-groups:\n"@ + concat(blocks.take(i + 1)));
    }
    assert(blocks.take(groups@.len() as int) =~= blocks);
    string_of(&out)
}

// ---------------------------------------------------------------------------
// The patterns that writing the proxy-groups section filters the nodes with.
// ---------------------------------------------------------------------------
/// Whether `pattern` is rejected as a regular expression, in which case
/// `filter_node` falls back to the empty pattern and keeps every name.
pub fn pattern_rejected(pattern: &str) -> (b: bool)
    ensures
        b == !regex_compiles(pattern@),
{
    compile_pattern(pattern).is_none()
}

/// The pattern entries of a proxy list that writing it filters the nodes with, in
/// order: every entry that does not start with `[]`, up to and including the first
/// one that selects no node.
pub open spec fn consulted_patterns(entries: Seq<Seq<char>>, nodes: Seq<Seq<char>>) -> Seq<
    Seq<char>,
>
    decreases entries.len(),
{
    if entries.len() == 0 {
        Seq::<Seq<char>>::empty()
    } else {
        let before = consulted_patterns(entries.drop_last(), nodes);
        if proxy_lines(entries.drop_last(), nodes) is None || has_prefix(entries.last(), "[]"@) {
            before
        } else {
            before.push(entries.last())
        }
    }
}

/// The patterns that writing the proxy-groups section for `groups` filters the
/// nodes with, group by group.
pub open spec fn groups_patterns(groups: Seq<GroupSpec>, nodes: Seq<Seq<char>>) -> Seq<Seq<char>>
    decreases groups.len(),
{
    if groups.len() == 0 {
        Seq::<Seq<char>>::empty()
    } else {
        groups_patterns(groups.drop_last(), nodes) + consulted_patterns(
            string_views(groups.last().proxies@),
            nodes,
        )
    }
}

/// The patterns that writing the proxy list of `g` filters the nodes with.
fn group_patterns(g: &GroupSpec, nodes: &Vec<String>) -> (r: Vec<String>)
    ensures
        string_views(r@) == consulted_patterns(string_views(g.proxies@), string_views(nodes@)),
{
    let ghost entries = string_views(g.proxies@);
    let ghost names = string_views(nodes@);
    let marker = chars_of("[]");
    proof {
        reveal_strlit("[]");
    }
    let mut stopped = false;
    let mut out: Vec<String> = Vec::new();
    assert(entries.take(0) =~= Seq::<Seq<char>>::empty());
    assert(string_views(out@) =~= Seq::<Seq<char>>::empty());
    for i in 0..g.proxies.len()
        invariant
            entries == string_views(g.proxies@),
            names == string_views(nodes@),
            marker@ == "[]"@,
            stopped == proxy_lines(entries.take(i as int), names) is None,
            string_views(out@) == consulted_patterns(entries.take(i as int), names),
    {
        assert(entries.take(i + 1).drop_last() =~= entries.take(i as int));
        assert(entries.take(i + 1).last() == g.proxies@[i as int]@);
        if !stopped {
            let entry = &g.proxies[i];
            if !starts_with(&chars_of(entry.as_str()), &marker) {
                let ghost before = out@;
                let copy = entry.clone();
                out.push(copy);
                assert(string_views(out@) =~= string_views(before).push(copy@));
            }
            match entry_chars_for(entry, nodes) {
                None => {
                    stopped = true;
                },
                Some(_) => {},
            }
        }
    }
    assert(entries.take(g.proxies@.len() as int) =~= entries);
    out
}

/// The patterns that writing the proxy-groups section for `groups` over the node
/// names `nodes` filters the nodes with, in order and with repetitions: each is a
/// call of `filter_node`, which warns once per node when the pattern is rejected.
pub fn filtered_patterns(groups: &Vec<GroupSpec>, nodes: &Vec<String>) -> (r: Vec<String>)
    ensures
        string_views(r@) == groups_patterns(groups@, string_views(nodes@)),
{
    let ghost names = string_views(nodes@);
    let mut out: Vec<String> = Vec::new();
    assert(groups@.take(0) =~= Seq::<GroupSpec>::empty());
    assert(string_views(out@) =~= Seq::<Seq<char>>::empty());
    for i in 0..groups.len()
        invariant
            names == string_views(nodes@),
            string_views(out@) == groups_patterns(groups@.take(i as int), names),
    {
        assert(groups@.take(i + 1).drop_last() =~= groups@.take(i as int));
        assert(groups@.take(i + 1).last() == groups@[i as int]);
        let more = group_patterns(&groups[i], nodes);
        let ghost before = out@;
        for k in 0..more.len()
            invariant
                string_views(out@) == string_views(before) + string_views(more@).take(k as int),
        {
            let ghost mid = out@;
            let copy = more[k].clone();
            out.push(copy);
            assert(string_views(out@) =~= string_views(mid).push(copy@));
            assert(string_views(more@).take(k + 1) =~= string_views(more@).take(k as int).push(
                more@[k as int]@,
            ));
        }
        assert(string_views(more@).take(more@.len() as int) =~= string_views(more@));
    }
    assert(groups@.take(groups@.len() as int) =~= groups@);
    out
}

// ---------------------------------------------------------------------------
// Laws.
// ---------------------------------------------------------------------------
/// Every name that a pattern selects comes from the list it was selected from and
/// is selected by the pattern; no more names come out than went in.
pub proof fn lemma_selected_names_come_from_input(pattern: Seq<char>, names: Seq<Seq<char>>)
    ensures
        selected_names(pattern, names).len() <= names.len(),
        forall|i: int|
            0 <= i < selected_names(pattern, names).len() ==> names.contains(
                #[trigger] selected_names(pattern, names)[i],
            ) && selects(pattern, selected_names(pattern, names)[i]),
    decreases names.len(),
{
    if names.len() > 0 {
        let init = names.drop_last();
        lemma_selected_names_come_from_input(pattern, init);
        let sel = selected_names(pattern, names);
        assert forall|i: int| 0 <= i < sel.len() implies names.contains(#[trigger] sel[i]) && selects(
            pattern,
            sel[i],
        ) by {
            let before = selected_names(pattern, init);
            if i < before.len() {
                assert(sel[i] == before[i]);
                let k = choose|k: int| 0 <= k < init.len() && init[k] == before[i];
                assert(names[k] == init[k]);
            } else {
                assert(sel[i] == names.last());
                assert(names[names.len() - 1] == names.last());
            }
        }
    }
}

/// Filtering the names a pattern selected with the same pattern again changes
/// nothing.
pub proof fn lemma_selection_idempotent(pattern: Seq<char>, names: Seq<Seq<char>>)
    ensures
        selected_names(pattern, selected_names(pattern, names)) == selected_names(pattern, names),
    decreases names.len(),
{
    if names.len() > 0 {
        let init = names.drop_last();
        lemma_selection_idempotent(pattern, init);
        let before = selected_names(pattern, init);
        if selects(pattern, names.last()) {
            assert(before.push(names.last()).drop_last() =~= before);
        }
    }
}

/// A pattern that is not a regular expression selects every name, in order.
pub proof fn lemma_rejected_pattern_selects_all(pattern: Seq<char>, names: Seq<Seq<char>>)
    requires
        !regex_compiles(pattern),
    ensures
        selected_names(pattern, names) == names,
    decreases names.len(),
{
    if names.len() > 0 {
        lemma_rejected_pattern_selects_all(pattern, names.drop_last());
        assert(names.drop_last().push(names.last()) =~= names);
    }
}

/// A name that needs no escaping in JSON: no double quote, no backslash and no
/// control character.
pub open spec fn plain_name(name: Seq<char>) -> bool {
    forall|i: int|
        0 <= i < name.len() ==> #[trigger] name[i] != '"' && name[i] != '\\' && (name[i] as u32)
            >= 32
}

proof fn lemma_plain_escapes(s: Seq<char>)
    requires
        plain_name(s),
    ensures
        concat(s.map_values(|c: char| json_escape(c))) == s,
    decreases s.len(),
{
    if s.len() > 0 {
        let init = s.drop_last();
        assert(plain_name(init)) by {
            assert forall|i: int| 0 <= i < init.len() implies #[trigger] init[i] != '"' && init[i]
                != '\\' && (init[i] as u32) >= 32 by {
                assert(init[i] == s[i]);
            }
        }
        lemma_plain_escapes(init);
        let m = s.map_values(|c: char| json_escape(c));
        assert(m.drop_last() =~= init.map_values(|c: char| json_escape(c)));
        assert(s[s.len() - 1] == s.last());
        assert(json_escape(s.last()) =~= seq![s.last()]);
        assert(init.push(s.last()) =~= s);
    }
}

proof fn lemma_drop_quotes(s: Seq<char>, t: Seq<char>)
    requires
        !s.contains('"'),
    ensures
        replace_all(s + t, seq!['"'], Seq::<char>::empty()) == s + replace_all(
            t,
            seq!['"'],
            Seq::<char>::empty(),
        ),
    decreases s.len(),
{
    if s.len() == 0 {
        assert(s + t =~= t);
        assert(s + replace_all(t, seq!['"'], Seq::<char>::empty()) =~= replace_all(
            t,
            seq!['"'],
            Seq::<char>::empty(),
        ));
    } else {
        let rest = s.skip(1);
        assert(!rest.contains('"')) by {
            if rest.contains('"') {
                let k = choose|k: int| 0 <= k < rest.len() && rest[k] == '"';
                assert(s[k + 1] == '"');
            }
        }
        lemma_drop_quotes(rest, t);
        assert(s[0] != '"');
        assert(!has_prefix(s + t, seq!['"'])) by {
            assert((s + t).subrange(0, 1)[0] == s[0]);
        }
        assert((s + t).skip(1) =~= rest + t);
        assert(seq![s[0]] + (rest + replace_all(t, seq!['"'], Seq::<char>::empty())) =~= s
            + replace_all(t, seq!['"'], Seq::<char>::empty()));
    }
}

/// A node whose name needs no escaping is listed under its own name.
pub proof fn lemma_plain_name_listed_as_is(name: Seq<char>)
    requires
        plain_name(name),
    ensures
        listed_name(name) == name,
{
    lemma_plain_escapes(name);
    let q = seq!['"'];
    let e = Seq::<char>::empty();
    assert(json_literal(name) =~= q + (name + q));
    assert(!name.contains('"')) by {
        if name.contains('"') {
            let k = choose|k: int| 0 <= k < name.len() && name[k] == '"';
            assert(name[k] != '"');
        }
    }
    assert(has_prefix(q + (name + q), q)) by {
        assert((q + (name + q)).subrange(0, 1) =~= q);
    }
    assert((q + (name + q)).skip(1) =~= name + q);
    lemma_drop_quotes(name, q);
    assert(has_prefix(q, q)) by {
        assert(q.subrange(0, 1) =~= q);
    }
    assert(q.skip(1) =~= e);
    assert(replace_all(q, q, e) =~= e + replace_all(e, q, e));
    assert(listed_name(name) =~= name);
}

/// A pattern selects exactly the names it selects, in order: every name of the
/// list that it matches (every name, when it does not compile) and no other.
pub proof fn lemma_selected_names_are_filtered(pattern: Seq<char>, names: Seq<Seq<char>>)
    ensures
        selected_names(pattern, names) == names.filter(|n: Seq<char>| selects(pattern, n)),
        regex_compiles(pattern) ==> selected_names(pattern, names) == names.filter(
            |n: Seq<char>| regex_finds(pattern, n),
        ),
    decreases names.len(),
{
    reveal(Seq::filter);
    if names.len() > 0 {
        lemma_selected_names_are_filtered(pattern, names.drop_last());
    }
    if regex_compiles(pattern) {
        assert((|n: Seq<char>| selects(pattern, n)) =~= (|n: Seq<char>| regex_finds(pattern, n)));
    }
}

/// Lines of two runs of proxy entries one after the other: both runs' lines, or
/// none when either has a pattern that selects no node.
pub open spec fn joined_lines(first: Option<Seq<char>>, second: Option<Seq<char>>) -> Option<
    Seq<char>,
> {
    match first {
        None => None,
        Some(x) => match second {
            None => None,
            Some(y) => Some(x + y),
        },
    }
}

/// A proxy list is written entry after entry: one entry alone gives its own lines,
/// and two runs of entries give the lines of each in turn.
pub proof fn lemma_proxy_lines_in_turn(
    es: Seq<Seq<char>>,
    fs: Seq<Seq<char>>,
    entry: Seq<char>,
    nodes: Seq<Seq<char>>,
)
    ensures
        proxy_lines(es + fs, nodes) == joined_lines(proxy_lines(es, nodes), proxy_lines(fs, nodes)),
        proxy_lines(seq![entry], nodes) == entry_lines(entry, nodes),
    decreases fs.len(),
{
    assert(seq![entry].drop_last() =~= Seq::<Seq<char>>::empty());
    assert(seq![entry].last() == entry);
    assert(proxy_lines(Seq::<Seq<char>>::empty(), nodes) == Some(Seq::<char>::empty()));
    if let Some(t) = entry_lines(entry, nodes) {
        assert(Seq::<char>::empty() + t =~= t);
    }
    if fs.len() == 0 {
        assert(es + fs =~= es);
        if let Some(x) = proxy_lines(es, nodes) {
            assert(x + Seq::<char>::empty() =~= x);
        }
    } else {
        assert((es + fs).drop_last() =~= es + fs.drop_last());
        assert((es + fs).last() == fs.last());
        lemma_proxy_lines_in_turn(es, fs.drop_last(), entry, nodes);
        if let Some(x) = proxy_lines(es, nodes) {
            if let Some(y) = proxy_lines(fs.drop_last(), nodes) {
                if let Some(z) = entry_lines(fs.last(), nodes) {
                    assert(x + y + z =~= x + (y + z));
                }
            }
        }
    }
}

} // verus!
