//! The decisions behind the configuration endpoints: which nodes a provider hands
//! out, which subscription urls are accepted, and how a configuration's groups and
//! rules are filled in from the nodes.
use vstd::prelude::*;
use crate::codec::{json_literal, json_string};
use crate::pattern::{compile_pattern, is_match, regex_compiles, regex_finds};
use crate::rules::{expand_rules, expanded_rules, file_views};
use crate::structs::{node_views, AppState, Config, Node, NodeView, ProxyGroup, ProxyProvider};
use crate::text::{
    chars_of, has_prefix, replace_all, replace_all_chars, same_chars,
    starts_with, string_of, string_views,
};

verus! {

// ---------------------------------------------------------------------------
// The provider endpoint.
// ---------------------------------------------------------------------------
/// Why a provider request was refused.
#[derive(Clone, Copy, Debug, PartialEq, Eq, Structural)]
pub enum ProviderError {
    /// The request carries no `re` pattern.
    MissingPattern,
    /// The `re` pattern is not a regular expression and there are nodes to match.
    InvalidPattern,
}

/// The nodes among `nodes` whose name `pattern` matches, in order.
pub open spec fn matching_nodes(pattern: Seq<char>, nodes: Seq<NodeView>) -> Seq<NodeView>
    decreases nodes.len(),
{
    if nodes.len() == 0 {
        Seq::<NodeView>::empty()
    } else {
        let init = matching_nodes(pattern, nodes.drop_last());
        if regex_finds(pattern, nodes.last().name) {
            init.push(nodes.last())
        } else {
            init
        }
    }
}

/// The outcome of a provider request for the pattern `re` over `nodes`.
pub open spec fn provider_outcome(re: Option<Seq<char>>, nodes: Seq<NodeView>) -> Result<
    Seq<NodeView>,
    ProviderError,
> {
    match re {
        None => Err(ProviderError::MissingPattern),
        Some(pattern) => if nodes.len() > 0 && !regex_compiles(pattern) {
            Err(ProviderError::InvalidPattern)
        } else {
            Ok(matching_nodes(pattern, nodes))
        },
    }
}

/// The view of a provider outcome.
pub open spec fn provider_view(r: Result<ProxyProvider, ProviderError>) -> Result<
    Seq<NodeView>,
    ProviderError,
> {
    match r {
        Ok(p) => Ok(node_views(p.proxies@)),
        Err(e) => Err(e),
    }
}

/// The provider for `re`, or why there is none.
fn provide(state: &AppState, re: &Option<String>) -> (r: Result<ProxyProvider, ProviderError>)
    ensures
        provider_view(r) == provider_outcome(
            match re {
                Some(p) => Some(p@),
                None => None,
            },
            node_views(state.nodes@),
        ),
{
    let pattern = match re {
        None => {
            return Err(ProviderError::MissingPattern);
        },
        Some(p) => p,
    };
    let ghost nodes = node_views(state.nodes@);
    let mut proxies: Vec<Node> = Vec::new();
    if state.nodes.len() == 0 {
        assert(node_views(proxies@) =~= matching_nodes(pattern@, nodes));
        return Ok(ProxyProvider { proxies });
    }
    let compiled = match compile_pattern(pattern.as_str()) {
        None => {
            return Err(ProviderError::InvalidPattern);
        },
        Some(c) => c,
    };
    assert(nodes.take(0) =~= Seq::<NodeView>::empty());
    assert(node_views(proxies@) =~= Seq::<NodeView>::empty());
    for i in 0..state.nodes.len()
        invariant
            nodes == node_views(state.nodes@),
            nodes.len() > 0,
            regex_compiles(pattern@),
            compiled.source() == pattern@,
            node_views(proxies@) == matching_nodes(pattern@, nodes.take(i as int)),
    {
        let node = &state.nodes[i];
        assert(nodes.take(i + 1).drop_last() =~= nodes.take(i as int));
        assert(nodes.take(i + 1).last() == node@);
        if is_match(&compiled, node.name.as_str()) {
            let ghost before = proxies@;
            let copy = node.duplicate();
            proxies.push(copy);
            assert(node_views(proxies@) =~= node_views(before).push(copy@));
        }
    }
    assert(nodes.take(state.nodes@.len() as int) =~= nodes);
    Ok(ProxyProvider { proxies })
}

/// The provider for the pattern `re` (the request's `re` parameter): the nodes of
/// `state` whose name the regular expression matches, in order. There must be a
/// pattern, and it must compile where there are nodes (`try_build_provider` tests
/// that first).
pub fn build_provider(state: &AppState, re: Option<String>) -> (r: ProxyProvider)
    requires
        re matches Some(p) && (state.nodes@.len() == 0 || regex_compiles(p@)),
    ensures
        node_views(r.proxies@) == matching_nodes(re->0@, node_views(state.nodes@)),
{
    match provide(state, &re) {
        Ok(provider) => provider,
        Err(_) => {
            assert(false);
            ProxyProvider { proxies: Vec::new() }
        },
    }
}

/// The provider for the pattern `re`, or why the request is refused: no pattern,
/// or a pattern that does not compile while there are nodes to match.
pub fn try_build_provider(state: &AppState, re: Option<String>) -> (r: Result<
    ProxyProvider,
    ProviderError,
>)
    ensures
        provider_view(r) == provider_outcome(
            match re {
                Some(p) => Some(p@),
                None => None,
            },
            node_views(state.nodes@),
        ),
{
    match provide(state, &re) {
        Err(e) => Err(e),
        Ok(_) => Ok(build_provider(state, re)),
    }
}

// ---------------------------------------------------------------------------
// The configuration endpoint.
// ---------------------------------------------------------------------------
/// A subscription url must use http or https.
pub open spec fn accepted_url(url: Seq<char>) -> bool {
    has_prefix(url, "http://"@) || has_prefix(url, "https://"@)
}

/// The reply to a subscription url that is not accepted, or `None` for one that is.
pub fn url_rejection(url: &str) -> (r: Option<String>)
    ensures
        r is None <==> accepted_url(url@),
        r matches Some(reply) ==> reply@ == "Invalid url: "@ + url@,
{
    let text = chars_of(url);
    if starts_with(&text, &chars_of("http://")) || starts_with(&text, &chars_of("https://")) {
        None
    } else {
        let mut reply = chars_of("Invalid url: ");
        crate::text::extend_chars(&mut reply, &text);
        Some(string_of(&reply))
    }
}

/// The names by which a configuration refers to `nodes`: the JSON literal of each
/// node's name.
pub open spec fn quoted_names(nodes: Seq<NodeView>) -> Seq<Seq<char>> {
    nodes.map_values(|n: NodeView| json_literal(n.name))
}

/// The JSON literals of the names of `nodes`, in order.
pub fn proxy_names(nodes: &Vec<Node>) -> (r: Vec<String>)
    ensures
        string_views(r@) == quoted_names(node_views(nodes@)),
{
    let ghost target = quoted_names(node_views(nodes@));
    let mut out: Vec<String> = Vec::new();
    assert(target.take(0) =~= Seq::<Seq<char>>::empty());
    assert(string_views(out@) =~= Seq::<Seq<char>>::empty());
    for i in 0..nodes.len()
        invariant
            target == quoted_names(node_views(nodes@)),
            string_views(out@) == target.take(i as int),
    {
        let ghost before = out@;
        let name = json_string(nodes[i].name.as_str());
        out.push(name);
        assert(string_views(out@) =~= string_views(before).push(name@));
        assert(target.take(i + 1) =~= target.take(i as int).push(target[i as int]));
    }
    assert(target.take(nodes@.len() as int) =~= target);
    out
}

/// `s` without double quotes.
pub open spec fn unquoted(s: Seq<char>) -> Seq<char> {
    replace_all(s, seq!['"'], Seq::<char>::empty())
}

/// The node names among `names` that `pattern` matches, without double quotes.
pub open spec fn pattern_members(pattern: Seq<char>, names: Seq<Seq<char>>) -> Seq<Seq<char>>
    decreases names.len(),
{
    if names.len() == 0 {
        Seq::<Seq<char>>::empty()
    } else {
        let init = pattern_members(pattern, names.drop_last());
        if regex_finds(pattern, names.last()) {
            init.push(unquoted(names.last()))
        } else {
            init
        }
    }
}

/// What one entry of a group's proxy list contributes: an entry starting with `[]`
/// itself, any other entry the node names it matches.
pub open spec fn entry_members(entry: Seq<char>, names: Seq<Seq<char>>) -> Seq<Seq<char>> {
    if has_prefix(entry, "[]"@) {
        seq![entry]
    } else {
        pattern_members(entry, names)
    }
}

/// What a group's proxy list `entries` selects, in order.
pub open spec fn group_members(entries: Seq<Seq<char>>, names: Seq<Seq<char>>) -> Seq<Seq<char>>
    decreases entries.len(),
{
    if entries.len() == 0 {
        Seq::<Seq<char>>::empty()
    } else {
        group_members(entries.drop_last(), names) + entry_members(entries.last(), names)
    }
}

/// Every pattern entry of the groups compiles, where there are names to match.
pub open spec fn patterns_compile(groups: Seq<ProxyGroup>, names: Seq<Seq<char>>) -> bool {
    names.len() > 0 ==> forall|i: int, j: int|
        0 <= i < groups.len() && 0 <= j < groups[i].spec_proxies().len() && !has_prefix(
            #[trigger] groups[i].spec_proxies()[j]@,
            "[]"@,
        ) ==> regex_compiles(groups[i].spec_proxies()[j]@)
}

/// The selections of the groups, by group name: a group that selects nothing is
/// left out, and a later group replaces an earlier one of the same name.
pub open spec fn group_selections(groups: Seq<ProxyGroup>, names: Seq<Seq<char>>) -> Map<
    Seq<char>,
    Seq<Seq<char>>,
>
    decreases groups.len(),
{
    if groups.len() == 0 {
        Map::<Seq<char>, Seq<Seq<char>>>::empty()
    } else {
        let m = group_selections(groups.drop_last(), names);
        let members = group_members(string_views(groups.last().spec_proxies()), names);
        if members.len() > 0 {
            m.insert(groups.last().spec_name(), members)
        } else {
            m
        }
    }
}

/// The entries one group selects, under its name.
pub struct Selection {
    pub name: String,
    pub members: Vec<String>,
}

/// The map that a list of selections with distinct names stands for.
pub open spec fn selection_map(s: Seq<Selection>) -> Map<Seq<char>, Seq<Seq<char>>>
    decreases s.len(),
{
    if s.len() == 0 {
        Map::<Seq<char>, Seq<Seq<char>>>::empty()
    } else {
        selection_map(s.drop_last()).insert(s.last().name@, string_views(s.last().members@))
    }
}

/// No two selections carry the same name.
pub open spec fn distinct_names(s: Seq<Selection>) -> bool {
    forall|i: int, j: int| 0 <= i < j < s.len() ==> (#[trigger] s[i]).name@ != (#[trigger] s[j]).name@
}

/// Why a configuration's groups could not be filled in.
#[derive(Clone, Copy, Debug, PartialEq, Eq, Structural)]
pub enum GroupError {
    /// A proxy list entry is a pattern that is not a regular expression.
    InvalidPattern,
}

proof fn lemma_selection_map_update(s: Seq<Selection>, j: int, x: Selection)
    requires
        distinct_names(s),
        0 <= j < s.len(),
        x.name@ == s[j].name@,
    ensures
        selection_map(s.update(j, x)) == selection_map(s).insert(x.name@, string_views(x.members@)),
        distinct_names(s.update(j, x)),
    decreases s.len(),
{
    let t = s.update(j, x);
    if j == s.len() - 1 {
        assert(t.drop_last() =~= s.drop_last());
        assert(selection_map(t) =~= selection_map(s).insert(x.name@, string_views(x.members@)));
    } else {
        assert(t.drop_last() =~= s.drop_last().update(j, x));
        assert(distinct_names(s.drop_last())) by {
            assert forall|a: int, b: int| 0 <= a < b < s.drop_last().len() implies (
            #[trigger] s.drop_last()[a]).name@ != (#[trigger] s.drop_last()[b]).name@ by {
                assert(s.drop_last()[a] == s[a] && s.drop_last()[b] == s[b]);
            }
        }
        lemma_selection_map_update(s.drop_last(), j, x);
        assert(s[j].name@ != s.last().name@) by {
            assert(s.last() == s[s.len() - 1]);
        }
        assert(t.last() == s.last());
        assert(selection_map(t) =~= selection_map(s).insert(x.name@, string_views(x.members@)));
    }
    assert forall|a: int, b: int| 0 <= a < b < t.len() implies (#[trigger] t[a]).name@ != (
    #[trigger] t[b]).name@ by {
        assert(t[a].name@ == s[a].name@ && t[b].name@ == s[b].name@);
    }
}

/// Whether two strings hold the same characters.
fn same_text(a: &String, b: &String) -> (r: bool)
    ensures
        r == (a@ == b@),
{
    same_chars(&chars_of(a.as_str()), &chars_of(b.as_str()))
}

/// The node names among `names` that `pattern` matches, without double quotes.
fn members_of_pattern(pattern: &String, names: &Vec<String>) -> (r: Option<Vec<String>>)
    ensures
        r is None <==> (names@.len() > 0 && !regex_compiles(pattern@)),
        r matches Some(v) ==> string_views(v@) == pattern_members(pattern@, string_views(names@)),
{
    let ghost all = string_views(names@);
    let mut out: Vec<String> = Vec::new();
    if names.len() == 0 {
        assert(string_views(out@) =~= pattern_members(pattern@, all));
        return Some(out);
    }
    let compiled = match compile_pattern(pattern.as_str()) {
        None => {
            return None;
        },
        Some(c) => c,
    };
    let quote: Vec<char> = vec!['"'];
    let nothing: Vec<char> = Vec::new();
    assert(quote@ =~= seq!['"'] && nothing@ =~= Seq::<char>::empty());
    assert(all.take(0) =~= Seq::<Seq<char>>::empty());
    assert(string_views(out@) =~= Seq::<Seq<char>>::empty());
    for i in 0..names.len()
        invariant
            all == string_views(names@),
            compiled.source() == pattern@,
            regex_compiles(pattern@),
            quote@ == seq!['"'],
            nothing@ == Seq::<char>::empty(),
            string_views(out@) == pattern_members(pattern@, all.take(i as int)),
    {
        assert(all.take(i + 1).drop_last() =~= all.take(i as int));
        assert(all.take(i + 1).last() == names@[i as int]@);
        if is_match(&compiled, names[i].as_str()) {
            let bare = string_of(&replace_all_chars(&chars_of(names[i].as_str()), &quote, &nothing));
            let ghost before = out@;
            out.push(bare);
            assert(string_views(out@) =~= string_views(before).push(bare@));
        }
    }
    assert(all.take(names@.len() as int) =~= all);
    Some(out)
}

/// What the proxy list `entries` selects, or `None` when a pattern entry does not
/// compile while there are names to match.
fn members_of_group(entries: &Vec<String>, names: &Vec<String>) -> (r: Option<Vec<String>>)
    ensures
        r is None <==> (names@.len() > 0 && exists|j: int|
            0 <= j < entries@.len() && !has_prefix(#[trigger] entries@[j]@, "[]"@)
                && !regex_compiles(entries@[j]@)),
        r matches Some(v) ==> string_views(v@) == group_members(
            string_views(entries@),
            string_views(names@),
        ),
{
    let ghost all = string_views(entries@);
    let ghost nv = string_views(names@);
    let marker = chars_of("[]");
    let mut out: Vec<String> = Vec::new();
    assert(all.take(0) =~= Seq::<Seq<char>>::empty());
    assert(string_views(out@) =~= Seq::<Seq<char>>::empty());
    for i in 0..entries.len()
        invariant
            all == string_views(entries@),
            nv == string_views(names@),
            marker@ == "[]"@,
            string_views(out@) == group_members(all.take(i as int), nv),
            names@.len() > 0 ==> forall|j: int|
                0 <= j < i && !has_prefix(#[trigger] entries@[j]@, "[]"@) ==> regex_compiles(
                    entries@[j]@,
                ),
    {
        let entry = &entries[i];
        assert(all.take(i + 1).drop_last() =~= all.take(i as int));
        assert(all.take(i + 1).last() == entry@);
        let ghost before = out@;
        if starts_with(&chars_of(entry.as_str()), &marker) {
            let copy = entry.clone();
            out.push(copy);
            assert(string_views(out@) =~= string_views(before) + seq![copy@]);
        } else {
            match members_of_pattern(entry, names) {
                None => {
                    return None;
                },
                Some(found) => {
                    for k in 0..found.len()
                        invariant
                            string_views(out@) == string_views(before) + string_views(found@).take(
                                k as int,
                            ),
                    {
                        let ghost mid = out@;
                        let copy = found[k].clone();
                        out.push(copy);
                        assert(string_views(out@) =~= string_views(mid).push(copy@));
                        assert(string_views(found@).take(k + 1) =~= string_views(found@).take(
                            k as int,
                        ).push(found@[k as int]@));
                    }
                    assert(string_views(found@).take(found@.len() as int) =~= string_views(
                        found@,
                    ));
                },
            }
        }
    }
    assert(all.take(entries@.len() as int) =~= all);
    Some(out)
}

/// What each group of `groups` selects among the node names `names`, by group name:
/// an entry starting with `[]` selects itself, any other entry is a pattern that
/// selects the names it matches, without double quotes. A group that selects
/// nothing is left out, and a later group replaces an earlier one of the same name.
/// A pattern entry that does not compile, while there are names, is an error.
pub fn select_group_members(groups: &Vec<ProxyGroup>, names: &Vec<String>) -> (r: Result<
    Vec<Selection>,
    GroupError,
>)
    ensures
        r is Err <==> !patterns_compile(groups@, string_views(names@)),
        r matches Ok(s) ==> distinct_names(s@) && selection_map(s@) == group_selections(
            groups@,
            string_views(names@),
        ),
{
    let ghost nv = string_views(names@);
    let mut out: Vec<Selection> = Vec::new();
    assert(groups@.take(0) =~= Seq::<ProxyGroup>::empty());
    assert(selection_map(out@) =~= group_selections(groups@.take(0), nv));
    for i in 0..groups.len()
        invariant
            nv == string_views(names@),
            distinct_names(out@),
            selection_map(out@) == group_selections(groups@.take(i as int), nv),
            patterns_compile(groups@.take(i as int), nv),
    {
        let group = &groups[i];
        assert(groups@.take(i + 1).drop_last() =~= groups@.take(i as int));
        assert(groups@.take(i + 1).last() == *group);
        let members = match members_of_group(group.proxies(), names) {
            None => {
                assert(!patterns_compile(groups@, nv)) by {
                    let j = choose|j: int|
                        0 <= j < group.spec_proxies().len() && !has_prefix(
                            #[trigger] group.spec_proxies()[j]@,
                            "[]"@,
                        ) && !regex_compiles(group.spec_proxies()[j]@);
                    assert(groups@[i as int] == *group);
                }
                return Err(GroupError::InvalidPattern);
            },
            Some(m) => m,
        };
        assert(patterns_compile(groups@.take(i + 1), nv)) by {
            assert forall|a: int, b: int|
                nv.len() > 0 && 0 <= a < groups@.take(i + 1).len() && 0 <= b < groups@.take(
                    i + 1,
                )[a].spec_proxies().len() && !has_prefix(
                    #[trigger] groups@.take(i + 1)[a].spec_proxies()[b]@,
                    "[]"@,
                ) implies regex_compiles(groups@.take(i + 1)[a].spec_proxies()[b]@) by {
                if a < i {
                    assert(groups@.take(i + 1)[a] == groups@.take(i as int)[a]);
                } else {
                    assert(groups@.take(i + 1)[a] == *group);
                }
            }
        }
        if members.len() > 0 {
            let name = group.name().clone();
            let mut found: Option<usize> = None;
            for j in 0..out.len()
                invariant
                    found is None ==> forall|k: int| 0 <= k < j ==> out@[k].name@ != name@,
                    found matches Some(f) ==> f < out@.len() && out@[f as int].name@ == name@,
            {
                if found.is_none() && same_text(&out[j].name, &name) {
                    found = Some(j);
                }
            }
            let entry = Selection { name, members };
            match found {
                Some(f) => {
                    proof {
                        lemma_selection_map_update(out@, f as int, entry);
                    }
                    out.set(f, entry);
                },
                None => {
                    let ghost before = out@;
                    out.push(entry);
                    assert(out@.drop_last() =~= before);
                    assert(distinct_names(out@)) by {
                        assert forall|a: int, b: int| 0 <= a < b < out@.len() implies (
                        #[trigger] out@[a]).name@ != (#[trigger] out@[b]).name@ by {
                            if b == out@.len() - 1 {
                                assert(out@[a] == before[a]);
                            } else {
                                assert(out@[a] == before[a] && out@[b] == before[b]);
                            }
                        }
                    }
                },
            }
        }
    }
    assert(groups@.take(groups@.len() as int) =~= groups@);
    Ok(out)
}

// ---------------------------------------------------------------------------
// Pruning references to groups that select nothing.
// ---------------------------------------------------------------------------
/// An entry is kept unless it refers (with `[]`) to a group outside `names` other
/// than the `DIRECT` and `REJECT` policies.
pub open spec fn kept_entry(entry: Seq<char>, names: Set<Seq<char>>) -> bool {
    has_prefix(entry, "[]"@) && entry != "[]DIRECT"@ && entry != "[]REJECT"@ ==> names.contains(
        replace_all(entry, "[]"@, Seq::<char>::empty()),
    )
}

/// The entries of `entries` that are kept, in order.
pub open spec fn kept_entries(entries: Seq<Seq<char>>, names: Set<Seq<char>>) -> Seq<Seq<char>>
    decreases entries.len(),
{
    if entries.len() == 0 {
        Seq::<Seq<char>>::empty()
    } else {
        let init = kept_entries(entries.drop_last(), names);
        if kept_entry(entries.last(), names) {
            init.push(entries.last())
        } else {
            init
        }
    }
}

/// The selections with every entry that refers to a missing group dropped.
pub open spec fn pruned(m: Map<Seq<char>, Seq<Seq<char>>>) -> Map<Seq<char>, Seq<Seq<char>>> {
    Map::new(|k: Seq<char>| m.dom().contains(k), |k: Seq<char>| kept_entries(m[k], m.dom()))
}

proof fn lemma_selection_map_entries(s: Seq<Selection>)
    requires
        distinct_names(s),
    ensures
        forall|k: Seq<char>|
            selection_map(s).dom().contains(k) <==> exists|i: int|
                0 <= i < s.len() && (#[trigger] s[i]).name@ == k,
        forall|i: int|
            0 <= i < s.len() ==> selection_map(s)[(#[trigger] s[i]).name@] == string_views(
                s[i].members@,
            ),
    decreases s.len(),
{
    if s.len() > 0 {
        let init = s.drop_last();
        assert(distinct_names(init)) by {
            assert forall|a: int, b: int| 0 <= a < b < init.len() implies (#[trigger] init[a]).name@
                != (#[trigger] init[b]).name@ by {
                assert(init[a] == s[a] && init[b] == s[b]);
            }
        }
        lemma_selection_map_entries(init);
        assert forall|k: Seq<char>|
            selection_map(s).dom().contains(k) <==> exists|i: int|
                0 <= i < s.len() && (#[trigger] s[i]).name@ == k by {
            if selection_map(s).dom().contains(k) {
                if k == s.last().name@ {
                    assert(s[s.len() - 1].name@ == k);
                } else {
                    assert(selection_map(init).dom().contains(k));
                    let i = choose|i: int| 0 <= i < init.len() && (#[trigger] init[i]).name@ == k;
                    assert(init[i] == s[i]);
                    assert(0 <= i < s.len() && s[i].name@ == k);
                }
            }
            if exists|i: int| 0 <= i < s.len() && (#[trigger] s[i]).name@ == k {
                let i = choose|i: int| 0 <= i < s.len() && (#[trigger] s[i]).name@ == k;
                if i < s.len() - 1 {
                    assert(init[i] == s[i]);
                    assert(selection_map(init).dom().contains(k));
                } else {
                    assert(s.last().name@ == k);
                }
                assert(selection_map(s).dom().contains(k));
            }
        }
        assert forall|i: int| 0 <= i < s.len() implies selection_map(s)[(#[trigger] s[i]).name@]
            == string_views(s[i].members@) by {
            if i < s.len() - 1 {
                assert(init[i] == s[i]);
                assert(s[i].name@ != s[s.len() - 1].name@);
            }
        }
    }
}

/// The kept entries of `entries` for the group names of `s`.
fn kept_of(entries: &Vec<String>, s: &Vec<Selection>) -> (r: Vec<String>)
    requires
        distinct_names(s@),
    ensures
        string_views(r@) == kept_entries(string_views(entries@), selection_map(s@).dom()),
{
    let ghost all = string_views(entries@);
    let ghost names = selection_map(s@).dom();
    proof {
        lemma_selection_map_entries(s@);
    }
    let marker = chars_of("[]");
    proof {
        reveal_strlit("[]");
    }
    let direct = chars_of("[]DIRECT");
    let reject = chars_of("[]REJECT");
    let nothing: Vec<char> = Vec::new();
    assert(nothing@ =~= Seq::<char>::empty());
    let mut out: Vec<String> = Vec::new();
    assert(all.take(0) =~= Seq::<Seq<char>>::empty());
    assert(string_views(out@) =~= Seq::<Seq<char>>::empty());
    for i in 0..entries.len()
        invariant
            all == string_views(entries@),
            names == selection_map(s@).dom(),
            forall|k: Seq<char>|
                names.contains(k) <==> exists|j: int| 0 <= j < s@.len() && (#[trigger] s@[j]).name@ == k,
            marker@ == "[]"@,
            marker@.len() == 2,
            direct@ == "[]DIRECT"@,
            reject@ == "[]REJECT"@,
            nothing@ == Seq::<char>::empty(),
            string_views(out@) == kept_entries(all.take(i as int), names),
    {
        let entry = chars_of(entries[i].as_str());
        assert(all.take(i + 1).drop_last() =~= all.take(i as int));
        assert(all.take(i + 1).last() == entry@);
        let keep = if starts_with(&entry, &marker) && !same_chars(&entry, &direct) && !same_chars(
            &entry,
            &reject,
        ) {
            let target = replace_all_chars(&entry, &marker, &nothing);
            let mut present = false;
            for j in 0..s.len()
                invariant
                    present <==> exists|k: int| 0 <= k < j && (#[trigger] s@[k]).name@ == target@,
            {
                if same_chars(&chars_of(s[j].name.as_str()), &target) {
                    present = true;
                }
            }
            present
        } else {
            true
        };
        assert(keep == kept_entry(entry@, names));
        if keep {
            let ghost before = out@;
            let copy = entries[i].clone();
            out.push(copy);
            assert(string_views(out@) =~= string_views(before).push(copy@));
        }
    }
    assert(all.take(entries@.len() as int) =~= all);
    out
}

/// The selections with every entry dropped that refers (with `[]`) to a group that
/// is not among them, other than the `DIRECT` and `REJECT` policies.
pub fn prune_selections(s: &Vec<Selection>) -> (r: Vec<Selection>)
    requires
        distinct_names(s@),
    ensures
        distinct_names(r@),
        selection_map(r@) == pruned(selection_map(s@)),
{
    let ghost m = selection_map(s@);
    proof {
        lemma_selection_map_entries(s@);
    }
    let mut out: Vec<Selection> = Vec::new();
    for i in 0..s.len()
        invariant
            distinct_names(s@),
            m == selection_map(s@),
            forall|k: Seq<char>|
                m.dom().contains(k) <==> exists|j: int| 0 <= j < s@.len() && (#[trigger] s@[j]).name@ == k,
            forall|j: int| 0 <= j < s@.len() ==> m[(#[trigger] s@[j]).name@] == string_views(s@[j].members@),
            out@.len() == i,
            forall|j: int| 0 <= j < i ==> (#[trigger] out@[j]).name@ == s@[j].name@,
            forall|j: int|
                0 <= j < i ==> string_views((#[trigger] out@[j]).members@) == kept_entries(
                    string_views(s@[j].members@),
                    m.dom(),
                ),
    {
        let kept = kept_of(&s[i].members, s);
        out.push(Selection { name: s[i].name.clone(), members: kept });
    }
    proof {
        assert(distinct_names(out@)) by {
            assert forall|a: int, b: int| 0 <= a < b < out@.len() implies (#[trigger] out@[a]).name@
                != (#[trigger] out@[b]).name@ by {
                assert(s@[a].name@ != s@[b].name@);
            }
        }
        lemma_selection_map_entries(out@);
        assert forall|k: Seq<char>| #[trigger] selection_map(out@).dom().contains(k) <==> pruned(
            m,
        ).dom().contains(k) by {
            if selection_map(out@).dom().contains(k) {
                let j = choose|j: int| 0 <= j < out@.len() && (#[trigger] out@[j]).name@ == k;
                assert(s@[j].name@ == k);
            }
            if m.dom().contains(k) {
                let j = choose|j: int| 0 <= j < s@.len() && (#[trigger] s@[j]).name@ == k;
                assert(out@[j].name@ == k);
            }
        }
        assert forall|k: Seq<char>| #[trigger] selection_map(out@).dom().contains(k) implies selection_map(
            out@,
        )[k] == pruned(m)[k] by {
            let j = choose|j: int| 0 <= j < out@.len() && (#[trigger] out@[j]).name@ == k;
            assert(s@[j].name@ == k);
        }
        assert(selection_map(out@) =~= pruned(m));
    }
    out
}

// ---------------------------------------------------------------------------
// Filling in a configuration.
// ---------------------------------------------------------------------------
/// The groups of `groups` whose proxy list is not empty, in order.
pub open spec fn nonempty_groups(groups: Seq<ProxyGroup>) -> Seq<ProxyGroup>
    decreases groups.len(),
{
    if groups.len() == 0 {
        Seq::<ProxyGroup>::empty()
    } else {
        let rest = nonempty_groups(groups.drop_first());
        if groups[0].spec_proxies().len() > 0 {
            seq![groups[0]] + rest
        } else {
            rest
        }
    }
}

/// Keeps the groups whose proxy list is not empty, in order.
pub fn retain_groups(groups: Vec<ProxyGroup>) -> (r: Vec<ProxyGroup>)
    ensures
        r@ == nonempty_groups(groups@),
{
    let mut rest = groups;
    let mut out: Vec<ProxyGroup> = Vec::new();
    assert(out@ + nonempty_groups(rest@) =~= nonempty_groups(groups@));
    while rest.len() > 0
        invariant
            out@ + nonempty_groups(rest@) == nonempty_groups(groups@),
        decreases rest@.len(),
    {
        let ghost before = rest@;
        let group = rest.remove(0);
        assert(rest@ =~= before.drop_first());
        if group.proxies().len() > 0 {
            out.push(group);
            assert(out@ + nonempty_groups(rest@) =~= nonempty_groups(groups@));
        }
    }
    assert(nonempty_groups(rest@) =~= Seq::<ProxyGroup>::empty());
    assert(out@ =~= nonempty_groups(groups@));
    out
}

/// The outcome of filling in the groups of `config` from `nodes`.
pub open spec fn filled_groups(config: Config, nodes: Seq<NodeView>) -> Result<Seq<ProxyGroup>, GroupError> {
    if !patterns_compile(config.proxy_groups@, quoted_names(nodes)) {
        Err(GroupError::InvalidPattern)
    } else {
        Ok(nonempty_groups(config.proxy_groups@))
    }
}

/// Fills in `config` from the subscription's `nodes`: they become its proxies, and
/// its groups are those with a non-empty proxy list. Each group's selection is
/// worked out by `select_group_members`, which is why every pattern entry must
/// compile where there are nodes; the selections themselves do not change the
/// groups.
pub fn fill_groups(config: Config, nodes: Vec<Node>) -> (r: Config)
    requires
        patterns_compile(config.proxy_groups@, quoted_names(node_views(nodes@))),
    ensures
        node_views(r.proxies@) == node_views(nodes@),
        r.proxy_groups@ == nonempty_groups(config.proxy_groups@),
        r.rules@ == config.rules@,
{
    let names = proxy_names(&nodes);
    match select_group_members(&config.proxy_groups, &names) {
        Ok(selections) => {
            let _kept = prune_selections(&selections);
        },
        Err(_) => {},
    }
    let groups = retain_groups(config.proxy_groups);
    Config { proxies: nodes, proxy_groups: groups, rules: config.rules }
}

/// Replaces the rule lines of `config` by the rules they stand for, where
/// `files[i]` holds the text of the rule file that the `i`th line names if that file
/// exists.
pub fn fill_rules(config: Config, files: &Vec<Option<String>>) -> (r: Config)
    requires
        files@.len() == config.rules@.len(),
    ensures
        r.proxies == config.proxies,
        r.proxy_groups == config.proxy_groups,
        string_views(r.rules@) == expanded_rules(string_views(config.rules@), file_views(files@)),
{
    let rules = expand_rules(&config.rules, files);
    Config { proxies: config.proxies, proxy_groups: config.proxy_groups, rules }
}

/// Why a configuration could not be built from a subscription.
#[derive(Clone, Copy, Debug, PartialEq, Eq, Structural)]
pub enum ConfigError {
    /// The subscription url uses neither http nor https.
    InvalidUrl,
    /// A proxy list entry is a pattern that is not a regular expression.
    InvalidPattern,
}

/// The configuration built from `config` for the subscription at `url`, whose
/// `nodes` were fetched, where `files[i]` holds the text of the rule file that the
/// `i`th rule line of `config` names if that file exists.
pub open spec fn built_config(
    url: Seq<char>,
    config: Config,
    nodes: Seq<NodeView>,
    files: Seq<Option<Seq<char>>>,
) -> Result<(Seq<NodeView>, Seq<ProxyGroup>, Seq<Seq<char>>), ConfigError> {
    if !accepted_url(url) {
        Err(ConfigError::InvalidUrl)
    } else {
        match filled_groups(config, nodes) {
            Err(_) => Err(ConfigError::InvalidPattern),
            Ok(groups) => Ok((nodes, groups, expanded_rules(string_views(config.rules@), files))),
        }
    }
}

/// The view of a built configuration.
pub open spec fn config_outcome(r: Result<Config, ConfigError>) -> Result<
    (Seq<NodeView>, Seq<ProxyGroup>, Seq<Seq<char>>),
    ConfigError,
> {
    match r {
        Ok(c) => Ok((node_views(c.proxies@), c.proxy_groups@, string_views(c.rules@))),
        Err(e) => Err(e),
    }
}

/// Builds the configuration for the subscription at `url`; a url that uses neither
/// http nor https is answered with `Invalid url: ` and the url. The fetched `nodes`
/// become the proxies, the groups with a non-empty proxy list stay, and each rule
/// line is replaced by the rules of the rule file it names, `files[i]` holding the
/// text of the `i`th line's file if it exists. Every pattern entry of the groups
/// must compile where there are nodes (`try_from_url` tests that first).
pub fn from_url(url: &str, config: Config, nodes: Vec<Node>, files: &Vec<Option<String>>) -> (r:
    Result<Config, String>)
    requires
        files@.len() == config.rules@.len(),
        patterns_compile(config.proxy_groups@, quoted_names(node_views(nodes@))),
    ensures
        r is Err <==> !accepted_url(url@),
        r matches Err(reply) ==> reply@ == "Invalid url: "@ + url@,
        r matches Ok(c) ==> node_views(c.proxies@) == node_views(nodes@) && c.proxy_groups@
            == nonempty_groups(config.proxy_groups@) && string_views(c.rules@) == expanded_rules(
            string_views(config.rules@),
            file_views(files@),
        ),
{
    match url_rejection(url) {
        Some(reply) => Err(reply),
        None => {
            let ghost rules = config.rules@;
            let filled = fill_groups(config, nodes);
            assert(filled.rules@ == rules);
            Ok(fill_rules(filled, files))
        },
    }
}

/// Builds the configuration for the subscription at `url` as `from_url` does, or
/// says why it cannot: the url uses neither http nor https, or a pattern entry does
/// not compile while there are nodes.
pub fn try_from_url(url: &str, config: Config, nodes: Vec<Node>, files: &Vec<Option<String>>) -> (r:
    Result<Config, ConfigError>)
    requires
        files@.len() == config.rules@.len(),
    ensures
        config_outcome(r) == built_config(url@, config, node_views(nodes@), file_views(files@)),
{
    if url_rejection(url).is_some() {
        return Err(ConfigError::InvalidUrl);
    }
    let names = proxy_names(&nodes);
    if select_group_members(&config.proxy_groups, &names).is_err() {
        return Err(ConfigError::InvalidPattern);
    }
    match from_url(url, config, nodes, files) {
        Ok(c) => Ok(c),
        Err(_) => Err(ConfigError::InvalidUrl),
    }
}

// ---------------------------------------------------------------------------
// Laws.
// ---------------------------------------------------------------------------
/// A provider hands out only nodes of the state, in their order, each one whose
/// name the pattern matches; never more nodes than the state holds.
pub proof fn lemma_provided_nodes_match(pattern: Seq<char>, nodes: Seq<NodeView>)
    ensures
        matching_nodes(pattern, nodes).len() <= nodes.len(),
        forall|i: int|
            0 <= i < matching_nodes(pattern, nodes).len() ==> nodes.contains(
                #[trigger] matching_nodes(pattern, nodes)[i],
            ) && regex_finds(pattern, matching_nodes(pattern, nodes)[i].name),
    decreases nodes.len(),
{
    if nodes.len() > 0 {
        let init = nodes.drop_last();
        lemma_provided_nodes_match(pattern, init);
        let got = matching_nodes(pattern, nodes);
        let before = matching_nodes(pattern, init);
        assert forall|i: int| 0 <= i < got.len() implies nodes.contains(#[trigger] got[i])
            && regex_finds(pattern, got[i].name) by {
            if i < before.len() {
                assert(got[i] == before[i]);
                let k = choose|k: int| 0 <= k < init.len() && init[k] == before[i];
                assert(nodes[k] == init[k]);
            } else {
                assert(got[i] == nodes.last());
                assert(nodes[nodes.len() - 1] == nodes.last());
            }
        }
    }
}

/// Every group that a configuration keeps has a non-empty proxy list, and keeping
/// the non-empty groups a second time changes nothing.
pub proof fn lemma_kept_groups_nonempty(groups: Seq<ProxyGroup>)
    ensures
        forall|i: int|
            0 <= i < nonempty_groups(groups).len() ==> (#[trigger] nonempty_groups(
                groups,
            )[i]).spec_proxies().len() > 0,
        nonempty_groups(nonempty_groups(groups)) == nonempty_groups(groups),
        nonempty_groups(groups).len() <= groups.len(),
    decreases groups.len(),
{
    if groups.len() > 0 {
        let rest = groups.drop_first();
        lemma_kept_groups_nonempty(rest);
        let kept = nonempty_groups(groups);
        if groups[0].spec_proxies().len() > 0 {
            let r = nonempty_groups(rest);
            assert((seq![groups[0]] + r)[0] == groups[0]);
            assert((seq![groups[0]] + r).drop_first() =~= r);
            assert forall|i: int| 0 <= i < kept.len() implies (
            #[trigger] kept[i]).spec_proxies().len() > 0 by {
                if i > 0 {
                    assert(kept[i] == r[i - 1]);
                }
            }
        }
    }
}

/// A provider hands out exactly the nodes of the state whose name the pattern
/// matches, all of them, in order.
pub proof fn lemma_provided_nodes_are_filtered(pattern: Seq<char>, nodes: Seq<NodeView>)
    ensures
        matching_nodes(pattern, nodes) == nodes.filter(|n: NodeView| regex_finds(pattern, n.name)),
    decreases nodes.len(),
{
    reveal(Seq::filter);
    if nodes.len() > 0 {
        lemma_provided_nodes_are_filtered(pattern, nodes.drop_last());
    }
}

/// A configuration keeps exactly its groups with a non-empty proxy list, whatever
/// their kind, in order.
pub proof fn lemma_kept_groups_are_filtered(groups: Seq<ProxyGroup>)
    ensures
        nonempty_groups(groups) == groups.filter(|g: ProxyGroup| g.spec_proxies().len() > 0),
    decreases groups.len(),
{
    if groups.len() > 0 {
        let rest = groups.drop_first();
        lemma_kept_groups_are_filtered(rest);
        assert(seq![groups[0]] + rest =~= groups);
        rest.lemma_filter_prepend(groups[0], |g: ProxyGroup| g.spec_proxies().len() > 0);
    } else {
        reveal(Seq::filter);
    }
}

/// A pattern entry of a group selects exactly the node names it matches, in order,
/// each without double quotes.
pub proof fn lemma_pattern_members_are_filtered(pattern: Seq<char>, names: Seq<Seq<char>>)
    ensures
        pattern_members(pattern, names) == names.filter(|n: Seq<char>| regex_finds(pattern, n)).map_values(
            |n: Seq<char>| unquoted(n),
        ),
    decreases names.len(),
{
    reveal(Seq::filter);
    if names.len() > 0 {
        lemma_pattern_members_are_filtered(pattern, names.drop_last());
        let kept = names.drop_last().filter(|n: Seq<char>| regex_finds(pattern, n));
        assert(kept.push(names.last()).map_values(|n: Seq<char>| unquoted(n)) =~= kept.map_values(
            |n: Seq<char>| unquoted(n),
        ).push(unquoted(names.last())));
    } else {
        assert(names.filter(|n: Seq<char>| regex_finds(pattern, n)).map_values(
            |n: Seq<char>| unquoted(n),
        ) =~= Seq::<Seq<char>>::empty());
    }
}

/// Pruning keeps exactly the entries that do not refer to a missing group, in order.
pub proof fn lemma_kept_entries_are_filtered(entries: Seq<Seq<char>>, names: Set<Seq<char>>)
    ensures
        kept_entries(entries, names) == entries.filter(|e: Seq<char>| kept_entry(e, names)),
    decreases entries.len(),
{
    reveal(Seq::filter);
    if entries.len() > 0 {
        lemma_kept_entries_are_filtered(entries.drop_last(), names);
    }
}

/// A group's proxy list selects entry after entry: one entry alone selects what it
/// selects, and two runs of entries select what each selects, in turn.
pub proof fn lemma_group_members_in_turn(
    es: Seq<Seq<char>>,
    fs: Seq<Seq<char>>,
    entry: Seq<char>,
    names: Seq<Seq<char>>,
)
    ensures
        group_members(es + fs, names) == group_members(es, names) + group_members(fs, names),
        group_members(seq![entry], names) == entry_members(entry, names),
    decreases fs.len(),
{
    assert(seq![entry].drop_last() =~= Seq::<Seq<char>>::empty());
    assert(seq![entry].last() == entry);
    assert(group_members(Seq::<Seq<char>>::empty(), names) == Seq::<Seq<char>>::empty());
    assert(Seq::<Seq<char>>::empty() + entry_members(entry, names) =~= entry_members(entry, names));
    if fs.len() == 0 {
        assert(es + fs =~= es);
        assert(group_members(es, names) + group_members(fs, names) =~= group_members(es, names));
    } else {
        assert((es + fs).drop_last() =~= es + fs.drop_last());
        assert((es + fs).last() == fs.last());
        lemma_group_members_in_turn(es, fs.drop_last(), entry, names);
        let x = group_members(es, names);
        let y = group_members(fs.drop_last(), names);
        let z = entry_members(fs.last(), names);
        assert(x + y + z =~= x + (y + z));
    }
}

/// What group `g`'s proxy list selects among `names`.
pub open spec fn members_of(g: ProxyGroup, names: Seq<Seq<char>>) -> Seq<Seq<char>> {
    group_members(string_views(g.spec_proxies()), names)
}

/// The selections by group name hold exactly the names of the groups that select
/// something, and under each name what the last group of that name that selects
/// something selects.
pub proof fn lemma_group_selections_last_wins(groups: Seq<ProxyGroup>, names: Seq<Seq<char>>)
    ensures
        forall|k: Seq<char>|
            #![trigger group_selections(groups, names).dom().contains(k)]
            group_selections(groups, names).dom().contains(k) <==> exists|i: int|
                0 <= i < groups.len() && (#[trigger] groups[i]).spec_name() == k && members_of(
                    groups[i],
                    names,
                ).len() > 0,
        forall|i: int|
            0 <= i < groups.len() && members_of(#[trigger] groups[i], names).len() > 0 && (forall|
                j: int,
            |
                i < j < groups.len() && groups[j].spec_name() == groups[i].spec_name() ==> members_of(
                    #[trigger] groups[j],
                    names,
                ).len() == 0) ==> group_selections(groups, names)[groups[i].spec_name()] == members_of(
                groups[i],
                names,
            ),
    decreases groups.len(),
{
    if groups.len() > 0 {
        let init = groups.drop_last();
        let last = groups.last();
        lemma_group_selections_last_wins(init, names);
        let m = group_selections(init, names);
        assert(groups[groups.len() - 1] == last);
        assert forall|k: Seq<char>|
            #![trigger group_selections(groups, names).dom().contains(k)]
            group_selections(groups, names).dom().contains(k) <==> exists|i: int|
                0 <= i < groups.len() && (#[trigger] groups[i]).spec_name() == k && members_of(
                    groups[i],
                    names,
                ).len() > 0 by {
            if m.dom().contains(k) {
                let i = choose|i: int|
                    0 <= i < init.len() && (#[trigger] init[i]).spec_name() == k && members_of(
                        init[i],
                        names,
                    ).len() > 0;
                assert(groups[i] == init[i]);
            }
            if exists|i: int|
                0 <= i < groups.len() && (#[trigger] groups[i]).spec_name() == k && members_of(
                    groups[i],
                    names,
                ).len() > 0 {
                let i = choose|i: int|
                    0 <= i < groups.len() && (#[trigger] groups[i]).spec_name() == k && members_of(
                        groups[i],
                        names,
                    ).len() > 0;
                if i < init.len() {
                    assert(init[i] == groups[i]);
                    assert(m.dom().contains(k));
                }
            }
        }
        assert forall|i: int|
            0 <= i < groups.len() && members_of(#[trigger] groups[i], names).len() > 0 && (forall|
                j: int,
            |
                i < j < groups.len() && groups[j].spec_name() == groups[i].spec_name() ==> members_of(
                    #[trigger] groups[j],
                    names,
                ).len() == 0) implies group_selections(groups, names)[groups[i].spec_name()]
            == members_of(groups[i], names) by {
            if i < init.len() {
                assert(init[i] == groups[i]);
                assert forall|j: int|
                    i < j < init.len() && init[j].spec_name() == init[i].spec_name() implies members_of(
                    #[trigger] init[j],
                    names,
                ).len() == 0 by {
                    assert(init[j] == groups[j]);
                }
                if members_of(last, names).len() > 0 {
                    assert(last.spec_name() != groups[i].spec_name()) by {
                        if last.spec_name() == groups[i].spec_name() {
                            assert(members_of(groups[groups.len() - 1], names).len() == 0);
                        }
                    }
                }
            }
        }
    }
}

} // verus!
