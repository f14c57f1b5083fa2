//! Reading proxy nodes out of a subscription: a base64 body holding one
//! `ss://` share link per line.
use vstd::prelude::*;
use crate::codec::{percent_decoded, percent_decoded_text, Base64Padding};
use crate::decode::{decode_text, decoded_text, TextError};
use crate::pattern::{class_members, compile_pattern, is_plain_class, split};
use crate::structs::{node_views, Node, NodeView};
use crate::text::{
    chars_of, lines, lines_chars, replace_all, split_on_any, replace_all_chars, replace_first,
    replace_first_chars, same_chars, split_chars, split_on, string_of, string_views, trim,
    trim_chars, views, lemma_split_not_empty, lemma_scheme_removal_commutes_with_trim,
    lemma_split_after_separator_replacement, single_scheme, lemma_lines_concat, lemma_lines_single,
    strip_carriage_return, lemma_split_first_two_pieces, lemma_split_pieces_free_of_separator,
    has_prefix,
};

verus! {

/// Why a subscription could not be read.
#[derive(Clone, Copy, Debug, PartialEq, Eq, Structural)]
pub enum NodeError {
    /// The subscription body is not base64 text.
    Body(TextError),
    /// A node's `cipher:password` field is not unpadded base64 text.
    Credentials(TextError),
    /// A `ss` line has fewer than five fields.
    MissingField,
    /// A node's name does not percent-decode to UTF-8.
    InvalidName,
    /// A node's decoded credentials hold no `:` between cipher and password.
    MissingPassword,
}

/// The pattern that separates the fields of a share link.
pub open spec fn field_separators() -> Seq<char> {
    seq!['[', '#', ':', '@', ']']
}

/// The node that the fields `parts` of a share link describe: `None` for a link
/// of another type than `ss`, an error where a `ss` link is malformed.
pub open spec fn node_from_parts(parts: Seq<Seq<char>>) -> Result<Option<NodeView>, NodeError> {
    if parts[0] != seq!['s', 's'] {
        Ok(None)
    } else if parts.len() < 5 {
        Err(NodeError::MissingField)
    } else {
        match percent_decoded_text(parts[4]) {
            None => Err(NodeError::InvalidName),
            Some(name) => match decoded_text(Base64Padding::Forbidden, parts[1]) {
                Err(e) => Err(NodeError::Credentials(e)),
                Ok(credentials) => {
                    let halves = split_on(credentials, ':');
                    if halves.len() < 2 {
                        Err(NodeError::MissingPassword)
                    } else {
                        Ok(
                            Some(
                                NodeView {
                                    name: name,
                                    server: parts[2],
                                    port: parts[3],
                                    node_type: parts[0],
                                    cipher: halves[0],
                                    password: halves[1],
                                },
                            ),
                        )
                    }
                },
            },
        }
    }
}

/// The nodes of a sequence of share links, each given by its fields, in order and
/// without the links of other types; the first malformed link decides the error.
pub open spec fn nodes_from_links(links: Seq<Seq<Seq<char>>>) -> Result<Seq<NodeView>, NodeError>
    decreases links.len(),
{
    if links.len() == 0 {
        Ok(Seq::<NodeView>::empty())
    } else {
        match nodes_from_links(links.drop_last()) {
            Err(e) => Err(e),
            Ok(nodes) => match node_from_parts(links.last()) {
                Err(e) => Err(e),
                Ok(None) => Ok(nodes),
                Ok(Some(n)) => Ok(nodes.push(n)),
            },
        }
    }
}

/// The view of an outcome holding nodes.
pub open spec fn nodes_outcome(r: Result<Vec<Node>, NodeError>) -> Result<Seq<NodeView>, NodeError> {
    match r {
        Ok(nodes) => Ok(node_views(nodes@)),
        Err(e) => Err(e),
    }
}

/// The view of an outcome holding at most one node.
pub open spec fn node_outcome(r: Result<Option<Node>, NodeError>) -> Result<Option<NodeView>, NodeError> {
    match r {
        Ok(Some(n)) => Ok(Some(n@)),
        Ok(None) => Ok(None),
        Err(e) => Err(e),
    }
}

/// The view of at most one node.
pub open spec fn option_view(r: Option<Node>) -> Option<NodeView> {
    match r {
        Some(n) => Some(n@),
        None => None,
    }
}

/// The node that the fields of a share link describe, or why they describe none.
fn read_link(node: &Vec<String>) -> (r: Result<Option<Node>, NodeError>)
    requires
        node@.len() >= 1,
    ensures
        node_outcome(r) == node_from_parts(string_views(node@)),
{
    let ghost parts = string_views(node@);
    let kind = chars_of(node[0].as_str());
    let ss: Vec<char> = vec!['s', 's'];
    if !same_chars(&kind, &ss) {
        return Ok(None);
    }
    if node.len() < 5 {
        return Err(NodeError::MissingField);
    }
    let name = match percent_decoded(node[4].as_str()) {
        None => {
            return Err(NodeError::InvalidName);
        },
        Some(name) => name,
    };
    let credentials = match decode_text(Base64Padding::Forbidden, node[1].as_str()) {
        Err(e) => {
            return Err(NodeError::Credentials(e));
        },
        Ok(text) => text,
    };
    let halves = split_chars(&chars_of(credentials.as_str()), ':');
    if halves.len() < 2 {
        return Err(NodeError::MissingPassword);
    }
    let built = Node {
        name,
        server: node[2].clone(),
        port: node[3].clone(),
        node_type: node[0].clone(),
        cipher: string_of(&halves[0]),
        password: string_of(&halves[1]),
    };
    Ok(Some(built))
}

/// Builds the node that the fields of a share link describe: `None` for a link of
/// another type than `ss`. For `ss` the fields are the type, the base64
/// `cipher:password`, the server, the port and the percent-encoded name; the link
/// must be well formed (`try_node_builder` tests that first).
pub fn node_builder(node: Vec<String>) -> (r: Option<Node>)
    requires
        node@.len() >= 1,
        node_from_parts(string_views(node@)) is Ok,
    ensures
        node_from_parts(string_views(node@)) == Ok::<Option<NodeView>, NodeError>(option_view(r)),
{
    match read_link(&node) {
        Ok(built) => built,
        Err(_) => {
            assert(false);
            None
        },
    }
}

/// Builds the node that the fields of a share link describe, or says why a `ss`
/// link is malformed.
pub fn try_node_builder(node: Vec<String>) -> (r: Result<Option<Node>, NodeError>)
    requires
        node@.len() >= 1,
    ensures
        node_outcome(r) == node_from_parts(string_views(node@)),
{
    match read_link(&node) {
        Err(e) => Err(e),
        Ok(_) => Ok(node_builder(node)),
    }
}

/// The fields of a share link in the form the first node reader splits: trimmed,
/// with `//` removed and `@` and `#` turned into `:`, then split at `:`.
pub open spec fn plain_link_fields(line: Seq<char>) -> Seq<Seq<char>> {
    split_on(
        replace_all(
            replace_all(replace_all(trim(line), seq!['/', '/'], Seq::empty()), seq!['@'], seq![':']),
            seq!['#'],
            seq![':'],
        ),
        ':',
    )
}

/// The nodes of a subscription body as the first node reader reads it.
pub open spec fn plain_subscription_nodes(encoded: Seq<char>) -> Result<Seq<NodeView>, NodeError> {
    match decoded_text(Base64Padding::Required, encoded) {
        Err(e) => Err(NodeError::Body(e)),
        Ok(text) => plain_text_nodes(text),
    }
}

/// The nodes of a decoded subscription text as the first node reader reads it.
pub open spec fn plain_text_nodes(text: Seq<char>) -> Result<Seq<NodeView>, NodeError> {
    nodes_from_links(lines(text).map_values(|l: Seq<char>| plain_link_fields(l)))
}

/// The fields of one share link for the first node reader.
fn plain_fields(line: &Vec<char>) -> (r: Vec<String>)
    ensures
        string_views(r@) == plain_link_fields(line@),
        r@.len() >= 1,
{
    let trimmed = trim_chars(line);
    let slashes: Vec<char> = vec!['/', '/'];
    assert(slashes@ =~= seq!['/', '/']);
    let nothing: Vec<char> = Vec::new();
    assert(nothing@ =~= Seq::<char>::empty());
    let at: Vec<char> = vec!['@'];
    let hash: Vec<char> = vec!['#'];
    let colon: Vec<char> = vec![':'];
    assert(at@ =~= seq!['@'] && hash@ =~= seq!['#'] && colon@ =~= seq![':']);
    let no_slashes = replace_all_chars(&trimmed, &slashes, &nothing);
    let no_at = replace_all_chars(&no_slashes, &at, &colon);
    let no_hash = replace_all_chars(&no_at, &hash, &colon);
    let pieces = split_chars(&no_hash, ':');
    proof {
        lemma_split_not_empty(no_hash@, ':');
    }
    strings_of(&pieces)
}

/// The strings made of each character vector of `parts`.
pub fn strings_of(parts: &Vec<Vec<char>>) -> (r: Vec<String>)
    ensures
        string_views(r@) == views(parts@),
        r@.len() == parts@.len(),
{
    let mut out: Vec<String> = Vec::new();
    for i in 0..parts.len()
        invariant
            string_views(out@) == views(parts@).take(i as int),
            out@.len() == i,
    {
        let ghost before = out@;
        let s = string_of(&parts[i]);
        out.push(s);
        assert(string_views(out@) =~= string_views(before).push(s@));
        assert(views(parts@).take(i + 1) =~= views(parts@).take(i as int).push(parts@[i as int]@));
    }
    assert(views(parts@).take(parts@.len() as int) =~= views(parts@));
    out
}

/// The nodes of a subscription body for the first node reader, or the first error.
fn read_plain_nodes(encoded: &str) -> (r: Result<Vec<Node>, NodeError>)
    ensures
        nodes_outcome(r) == plain_subscription_nodes(encoded@),
{
    let text = match decode_text(Base64Padding::Required, encoded) {
        Err(e) => {
            return Err(NodeError::Body(e));
        },
        Ok(text) => text,
    };
    let all = lines_chars(&chars_of(text.as_str()));
    let ghost links = lines(text@).map_values(|l: Seq<char>| plain_link_fields(l));
    let mut nodes: Vec<Node> = Vec::new();
    assert(links.take(0) =~= Seq::<Seq<Seq<char>>>::empty());
    assert(node_views(nodes@) =~= Seq::<NodeView>::empty());
    for i in 0..all.len()
        invariant
            views(all@) == lines(text@),
            decoded_text(Base64Padding::Required, encoded@) == Ok::<Seq<char>, TextError>(text@),
            links == lines(text@).map_values(|l: Seq<char>| plain_link_fields(l)),
            nodes_from_links(links.take(i as int)) == Ok::<Seq<NodeView>, NodeError>(
                node_views(nodes@),
            ),
    {
        let fields = plain_fields(&all[i]);
        assert(all@[i as int]@ == lines(text@)[i as int]);
        assert(links[i as int] == plain_link_fields(lines(text@)[i as int]));
        assert(links.take(i + 1).drop_last() =~= links.take(i as int));
        assert(links.take(i + 1).last() == string_views(fields@));
        let ghost before = nodes@;
        match read_link(&fields) {
            Err(e) => {
                assert(nodes_from_links(links.take(i + 1)) == Err::<Seq<NodeView>, NodeError>(e));
                proof {
                    lemma_links_error_persists(links, i as int + 1, e);
                }
                return Err(e);
            },
            Ok(None) => {},
            Ok(Some(n)) => {
                nodes.push(n);
                assert(node_views(nodes@) =~= node_views(before).push(n@));
            },
        }
    }
    assert(links.take(all@.len() as int) =~= links);
    Ok(nodes)
}

/// Reads the nodes of a subscription body: base64 text with one share link per
/// line. A link is trimmed, loses its `//`, has `@` and `#` turned into `:`, and is
/// split at `:` into the fields that `node_builder` reads. The body must be
/// readable (`try_get_nodes` tests that first).
pub fn get_nodes(encoded: String) -> (r: Vec<Node>)
    requires
        plain_subscription_nodes(encoded@) is Ok,
    ensures
        plain_subscription_nodes(encoded@) == Ok::<Seq<NodeView>, NodeError>(node_views(r@)),
{
    match read_plain_nodes(encoded.as_str()) {
        Ok(nodes) => nodes,
        Err(_) => {
            assert(false);
            Vec::new()
        },
    }
}

/// Reads the nodes of a subscription body as `get_nodes` does, or says why the
/// body cannot be read.
pub fn try_get_nodes(encoded: String) -> (r: Result<Vec<Node>, NodeError>)
    ensures
        nodes_outcome(r) == plain_subscription_nodes(encoded@),
{
    match read_plain_nodes(encoded.as_str()) {
        Err(e) => Err(e),
        Ok(_) => Ok(get_nodes(encoded)),
    }
}

/// Once the links up to `k` give an error, all the links give that error.
pub proof fn lemma_links_error_persists(links: Seq<Seq<Seq<char>>>, k: int, e: NodeError)
    requires
        0 <= k <= links.len(),
        nodes_from_links(links.take(k)) == Err::<Seq<NodeView>, NodeError>(e),
    ensures
        nodes_from_links(links) == Err::<Seq<NodeView>, NodeError>(e),
    decreases links.len() - k,
{
    if k < links.len() {
        assert(links.take(k + 1).drop_last() =~= links.take(k));
        lemma_links_error_persists(links, k + 1, e);
    } else {
        assert(links.take(k) =~= links);
    }
}

/// The fields of a share link in the form the second node reader splits: the
/// first `://` turned into `:`, trimmed, then split at every `#`, `:` and `@`.
pub open spec fn link_fields(line: Seq<char>) -> Seq<Seq<char>> {
    split_on_any(trim(replace_first(line, seq![':', '/', '/'], seq![':'])), seq!['#', ':', '@'])
}

/// The nodes of a subscription body as the second node reader reads it.
pub open spec fn subscription_nodes(encoded: Seq<char>) -> Result<Seq<NodeView>, NodeError> {
    match decoded_text(Base64Padding::Required, encoded) {
        Err(e) => Err(NodeError::Body(e)),
        Ok(text) => text_nodes(text),
    }
}

/// The nodes of a decoded subscription text as the second node reader reads it.
pub open spec fn text_nodes(text: Seq<char>) -> Result<Seq<NodeView>, NodeError> {
    nodes_from_links(lines(text).map_values(|l: Seq<char>| link_fields(l)))
}

/// The nodes of a subscription body for the second node reader, or the first error.
fn read_nodes(encoded: &str) -> (r: Result<Vec<Node>, NodeError>)
    ensures
        nodes_outcome(r) == subscription_nodes(encoded@),
{
    let text = match decode_text(Base64Padding::Required, encoded) {
        Err(e) => {
            return Err(NodeError::Body(e));
        },
        Ok(text) => text,
    };
    let all = lines_chars(&chars_of(text.as_str()));
    let mut nodes: Vec<Node> = Vec::new();
    assert(node_views(nodes@) =~= Seq::<NodeView>::empty());
    if all.len() == 0 {
        assert(lines(text@).map_values(|l: Seq<char>| link_fields(l)) =~= Seq::<
            Seq<Seq<char>>,
        >::empty());
        return Ok(nodes);
    }
    proof {
        reveal_strlit("[#:@]");
    }
    assert("[#:@]"@ =~= field_separators());
    assert(is_plain_class(field_separators()));
    assert(class_members(field_separators()) =~= seq!['#', ':', '@']);
    let separators = match compile_pattern("[#:@]") {
        None => {
            assert(false);
            return Ok(nodes);
        },
        Some(c) => c,
    };
    let ghost links = lines(text@).map_values(|l: Seq<char>| link_fields(l));
    assert(links.take(0) =~= Seq::<Seq<Seq<char>>>::empty());
    assert(node_views(nodes@) =~= Seq::<NodeView>::empty());
    for i in 0..all.len()
        invariant
            views(all@) == lines(text@),
            lines(text@).len() > 0,
            is_plain_class(field_separators()),
            class_members(field_separators()) == seq!['#', ':', '@'],
            decoded_text(Base64Padding::Required, encoded@) == Ok::<Seq<char>, TextError>(text@),
            separators.source() == field_separators(),
            links == lines(text@).map_values(|l: Seq<char>| link_fields(l)),
            nodes_from_links(links.take(i as int)) == Ok::<Seq<NodeView>, NodeError>(
                node_views(nodes@),
            ),
    {
        let scheme: Vec<char> = vec![':', '/', '/'];
        let colon: Vec<char> = vec![':'];
        assert(scheme@ =~= seq![':', '/', '/'] && colon@ =~= seq![':']);
        let shortened = replace_first_chars(&all[i], &scheme, &colon);
        let line = string_of(&trim_chars(&shortened));
        let fields = split(&separators, line.as_str());
        assert(all@[i as int]@ == lines(text@)[i as int]);
        assert(links[i as int] == link_fields(lines(text@)[i as int]));
        assert(links.take(i + 1).drop_last() =~= links.take(i as int));
        assert(links.take(i + 1).last() == string_views(fields@));
        let ghost before = nodes@;
        match read_link(&fields) {
            Err(e) => {
                assert(nodes_from_links(links.take(i + 1)) == Err::<Seq<NodeView>, NodeError>(e));
                proof {
                    lemma_links_error_persists(links, i as int + 1, e);
                }
                return Err(e);
            },
            Ok(None) => {},
            Ok(Some(n)) => {
                nodes.push(n);
                assert(node_views(nodes@) =~= node_views(before).push(n@));
            },
        }
    }
    assert(links.take(all@.len() as int) =~= links);
    Ok(nodes)
}

/// Reads the nodes of a subscription body: base64 text with one share link per
/// line. A link has its first `://` turned into `:`, is trimmed, and is split at
/// every `#`, `:` and `@` into the fields that `node_builder` reads. The body must
/// be readable (`try_get_nodes_from` tests that first).
pub fn get_nodes_from(encoded: String) -> (r: Vec<Node>)
    requires
        subscription_nodes(encoded@) is Ok,
    ensures
        subscription_nodes(encoded@) == Ok::<Seq<NodeView>, NodeError>(node_views(r@)),
{
    match read_nodes(encoded.as_str()) {
        Ok(nodes) => nodes,
        Err(_) => {
            assert(false);
            Vec::new()
        },
    }
}

/// Reads the nodes of a subscription body as `get_nodes_from` does, or says why
/// the body cannot be read.
pub fn try_get_nodes_from(encoded: String) -> (r: Result<Vec<Node>, NodeError>)
    ensures
        nodes_outcome(r) == subscription_nodes(encoded@),
{
    match read_nodes(encoded.as_str()) {
        Err(e) => Err(e),
        Ok(_) => Ok(get_nodes_from(encoded)),
    }
}

// ---------------------------------------------------------------------------
// Laws.
// ---------------------------------------------------------------------------
/// Every node read from share links is a `ss` node, and there are never more nodes
/// than links.
pub proof fn lemma_nodes_are_ss(links: Seq<Seq<Seq<char>>>)
    ensures
        nodes_from_links(links) matches Ok(nodes) ==> nodes.len() <= links.len() && forall|i: int|
            0 <= i < nodes.len() ==> (#[trigger] nodes[i]).node_type == seq!['s', 's'],
    decreases links.len(),
{
    if links.len() > 0 {
        lemma_nodes_are_ss(links.drop_last());
    }
}

/// A share link reads into the same fields for both node readers when its only
/// slashes in a row are those of one `://`.
pub proof fn lemma_link_readers_agree(line: Seq<char>)
    requires
        single_scheme(line),
    ensures
        plain_link_fields(line) == link_fields(line),
{
    lemma_scheme_removal_commutes_with_trim(line);
    lemma_split_after_separator_replacement(
        replace_all(trim(line), seq!['/', '/'], Seq::<char>::empty()),
    );
}

/// Both node readers read the same nodes, or fail alike, from a subscription whose
/// every line has no slashes in a row but those of one `://`.
pub proof fn lemma_node_readers_agree(encoded: Seq<char>)
    requires
        decoded_text(Base64Padding::Required, encoded) matches Ok(text) ==> forall|i: int|
            0 <= i < lines(text).len() ==> single_scheme(#[trigger] lines(text)[i]),
    ensures
        plain_subscription_nodes(encoded) == subscription_nodes(encoded),
{
    if let Ok(text) = decoded_text(Base64Padding::Required, encoded) {
        let ls = lines(text);
        let plain = ls.map_values(|l: Seq<char>| plain_link_fields(l));
        let other = ls.map_values(|l: Seq<char>| link_fields(l));
        assert forall|i: int| 0 <= i < ls.len() implies plain[i] == other[i] by {
            assert(single_scheme(ls[i]));
            lemma_link_readers_agree(ls[i]);
        }
        assert(plain =~= other);
    }
}

/// The nodes of two readings one after the other: the first error, or all the
/// nodes of the first followed by those of the second.
pub open spec fn joined_nodes(
    first: Result<Seq<NodeView>, NodeError>,
    second: Result<Seq<NodeView>, NodeError>,
) -> Result<Seq<NodeView>, NodeError> {
    match first {
        Err(e) => Err(e),
        Ok(x) => match second {
            Err(e) => Err(e),
            Ok(y) => Ok(x + y),
        },
    }
}

/// The nodes one share link with fields `fields` gives: none for another type than
/// `ss`, its node, or its error.
pub open spec fn link_nodes(fields: Seq<Seq<char>>) -> Result<Seq<NodeView>, NodeError> {
    match node_from_parts(fields) {
        Err(e) => Err(e),
        Ok(None) => Ok(Seq::<NodeView>::empty()),
        Ok(Some(n)) => Ok(seq![n]),
    }
}

/// Reading two runs of share links one after the other reads each run in turn.
pub proof fn lemma_links_concat(xs: Seq<Seq<Seq<char>>>, ys: Seq<Seq<Seq<char>>>)
    ensures
        nodes_from_links(xs + ys) == joined_nodes(nodes_from_links(xs), nodes_from_links(ys)),
    decreases ys.len(),
{
    if ys.len() == 0 {
        assert(xs + ys =~= xs);
        if let Ok(x) = nodes_from_links(xs) {
            assert(x + Seq::<NodeView>::empty() =~= x);
        }
    } else {
        assert((xs + ys).drop_last() =~= xs + ys.drop_last());
        assert((xs + ys).last() == ys.last());
        lemma_links_concat(xs, ys.drop_last());
        if let Ok(x) = nodes_from_links(xs) {
            if let Ok(y) = nodes_from_links(ys.drop_last()) {
                if let Ok(Some(n)) = node_from_parts(ys.last()) {
                    assert((x + y).push(n) =~= x + y.push(n));
                }
            }
        }
    }
}

/// One share link read on its own gives the nodes of that link.
pub proof fn lemma_single_link(fields: Seq<Seq<char>>)
    ensures
        nodes_from_links(seq![fields]) == link_nodes(fields),
{
    let one = seq![fields];
    assert(one.drop_last() =~= Seq::<Seq<Seq<char>>>::empty());
    assert(one.last() == fields);
    assert(nodes_from_links(one.drop_last()) == Ok::<Seq<NodeView>, NodeError>(
        Seq::<NodeView>::empty(),
    ));
    if let Ok(Some(n)) = node_from_parts(fields) {
        assert(Seq::<NodeView>::empty().push(n) =~= seq![n]);
    }
}

/// The second node reader reads the lines of a text one after the other: text
/// joined at a newline gives the nodes of the part up to that newline followed by
/// those of the rest.
pub proof fn lemma_text_nodes_concat(a: Seq<char>, b: Seq<char>)
    ensures
        text_nodes(a + seq!['\n'] + b) == joined_nodes(text_nodes(a + seq!['\n']), text_nodes(b)),
{
    lemma_lines_concat(a, b);
    assert(lines(a + seq!['\n'] + b).map_values(|l: Seq<char>| link_fields(l)) =~= lines(
        a + seq!['\n'],
    ).map_values(|l: Seq<char>| link_fields(l)) + lines(b).map_values(
        |l: Seq<char>| link_fields(l),
    ));
    lemma_links_concat(
        lines(a + seq!['\n']).map_values(|l: Seq<char>| link_fields(l)),
        lines(b).map_values(|l: Seq<char>| link_fields(l)),
    );
}

/// The second node reader reads a single line, whether or not a newline ends it:
/// an empty text gives no node, and a line gives the nodes of its link.
pub proof fn lemma_text_nodes_single_line(l: Seq<char>)
    requires
        !l.contains('\n'),
    ensures
        text_nodes(l) == (if l.len() == 0 {
            Ok(Seq::<NodeView>::empty())
        } else {
            link_nodes(link_fields(l))
        }),
        text_nodes(l + seq!['\n']) == link_nodes(link_fields(strip_carriage_return(l))),
{
    lemma_lines_single(l);
    if l.len() > 0 {
        assert(seq![l].map_values(|x: Seq<char>| link_fields(x)) =~= seq![link_fields(l)]);
        lemma_single_link(link_fields(l));
    } else {
        assert(Seq::<Seq<char>>::empty().map_values(|x: Seq<char>| link_fields(x)) =~= Seq::<
            Seq<Seq<char>>,
        >::empty());
    }
    assert(seq![strip_carriage_return(l)].map_values(|x: Seq<char>| link_fields(x)) =~= seq![
        link_fields(strip_carriage_return(l)),
    ]);
    lemma_single_link(link_fields(strip_carriage_return(l)));
}

/// The first node reader reads the lines of a text one after the other: text
/// joined at a newline gives the nodes of the part up to that newline followed by
/// those of the rest.
pub proof fn lemma_plain_text_nodes_concat(a: Seq<char>, b: Seq<char>)
    ensures
        plain_text_nodes(a + seq!['\n'] + b) == joined_nodes(
            plain_text_nodes(a + seq!['\n']),
            plain_text_nodes(b),
        ),
{
    lemma_lines_concat(a, b);
    assert(lines(a + seq!['\n'] + b).map_values(|l: Seq<char>| plain_link_fields(l)) =~= lines(
        a + seq!['\n'],
    ).map_values(|l: Seq<char>| plain_link_fields(l)) + lines(b).map_values(
        |l: Seq<char>| plain_link_fields(l),
    ));
    lemma_links_concat(
        lines(a + seq!['\n']).map_values(|l: Seq<char>| plain_link_fields(l)),
        lines(b).map_values(|l: Seq<char>| plain_link_fields(l)),
    );
}

/// The first node reader reads a single line, whether or not a newline ends it:
/// an empty text gives no node, and a line gives the nodes of its link.
pub proof fn lemma_plain_text_nodes_single_line(l: Seq<char>)
    requires
        !l.contains('\n'),
    ensures
        plain_text_nodes(l) == (if l.len() == 0 {
            Ok(Seq::<NodeView>::empty())
        } else {
            link_nodes(plain_link_fields(l))
        }),
        plain_text_nodes(l + seq!['\n']) == link_nodes(
            plain_link_fields(strip_carriage_return(l)),
        ),
{
    lemma_lines_single(l);
    if l.len() > 0 {
        assert(seq![l].map_values(|x: Seq<char>| plain_link_fields(x)) =~= seq![
            plain_link_fields(l),
        ]);
        lemma_single_link(plain_link_fields(l));
    } else {
        assert(Seq::<Seq<char>>::empty().map_values(|x: Seq<char>| plain_link_fields(x)) =~= Seq::<
            Seq<Seq<char>>,
        >::empty());
    }
    assert(seq![strip_carriage_return(l)].map_values(|x: Seq<char>| plain_link_fields(x)) =~= seq![
        plain_link_fields(strip_carriage_return(l)),
    ]);
    lemma_single_link(plain_link_fields(strip_carriage_return(l)));
}

/// What a share link's fields give: a link of another type than `ss` gives no node
/// and no error; a `ss` link fails exactly when it has fewer than five fields, its
/// name does not percent-decode, its credentials are not unpadded base64 text, or
/// they hold no `:`; otherwise its node is of type `ss` with the server and port of
/// the third and fourth fields, the percent-decoded fifth field as its name, and
/// the credentials start with the cipher, `:` and the password, neither holding a
/// `:`, followed by nothing or by another `:`.
pub proof fn lemma_node_fields(parts: Seq<Seq<char>>)
    requires
        parts.len() >= 1,
    ensures
        parts[0] != seq!['s', 's'] ==> node_from_parts(parts) == Ok::<Option<NodeView>, NodeError>(
            None,
        ),
        parts[0] == seq!['s', 's'] ==> (node_from_parts(parts) is Err <==> (parts.len() < 5
            || percent_decoded_text(parts[4]) is None || decoded_text(
            Base64Padding::Forbidden,
            parts[1],
        ) is Err || !decoded_text(Base64Padding::Forbidden, parts[1])->Ok_0.contains(':'))),
        node_from_parts(parts) matches Ok(Some(n)) ==> {
            &&& parts.len() >= 5
            &&& n.node_type == parts[0]
            &&& n.node_type == seq!['s', 's']
            &&& n.server == parts[2]
            &&& n.port == parts[3]
            &&& percent_decoded_text(parts[4]) == Some(n.name)
            &&& decoded_text(Base64Padding::Forbidden, parts[1]) matches Ok(credentials)
            &&& !n.cipher.contains(':')
            &&& !n.password.contains(':')
            &&& has_prefix(credentials, n.cipher + seq![':'] + n.password)
            &&& (credentials.len() > n.cipher.len() + 1 + n.password.len() ==> credentials[(n.cipher.len()
                + 1 + n.password.len()) as int] == ':')
        },
{
    if parts[0] == seq!['s', 's'] && parts.len() >= 5 {
        if let Ok(credentials) = decoded_text(Base64Padding::Forbidden, parts[1]) {
            lemma_split_first_two_pieces(credentials, ':');
            lemma_split_pieces_free_of_separator(credentials, ':');
            let halves = split_on(credentials, ':');
            if halves.len() >= 2 {
                assert(!halves[0].contains(':'));
                assert(!halves[1].contains(':'));
            }
        }
    }
}

} // verus!
