//! Writing the `rules` section of a configuration from rule files.
use vstd::prelude::*;
use crate::pattern::{compile_pattern, is_match, is_plain_literal};
use crate::structs::RuleSource;
use crate::text::{
    chars_of, concat, extend_chars, has_infix, has_prefix, join, join_chars, lemma_concat_push,
    lemma_infix_in_join, lemma_lines_concat, lemma_lines_single, strip_carriage_return,
    lemma_split_first_two_pieces, lemma_join_split, lemma_split_join, lemma_split_not_empty,
    lemma_split_pieces_free_of_separator,
    lines, lines_chars, push_str, same_chars, split_chars, split_on, split_once, string_of,
    string_views, views,
};

verus! {

/// The rules of a rule file's `lines` sent to `group`: every line that does not
/// start with `#`, followed by a comma and the group.
pub open spec fn tagged_rules(lines: Seq<Seq<char>>, group: Seq<char>) -> Seq<Seq<char>>
    decreases lines.len(),
{
    if lines.len() == 0 {
        Seq::<Seq<char>>::empty()
    } else {
        let init = tagged_rules(lines.drop_last(), group);
        if has_prefix(lines.last(), "#"@) {
            init
        } else {
            init.push(lines.last() + ","@ + group)
        }
    }
}

/// The rules of a rule file with text `content` sent to `group`: every line of the
/// file that does not start with `#`, followed by a comma and the group.
pub open spec fn file_rules(content: Seq<char>, group: Seq<char>) -> Seq<Seq<char>> {
    tagged_rules(lines(content), group)
}

/// The rules one rule set contributes: `MATCH,group` for the catch-all rule set,
/// otherwise the tagged rules of its file.
pub open spec fn ruleset_rules(source: RuleSource) -> Seq<Seq<char>> {
    if source.ruleset@ == "MATCH"@ {
        seq!["MATCH"@ + ","@ + source.group@]
    } else {
        file_rules(source.content@, source.group@)
    }
}

/// The rules of all rule sets, in order.
pub open spec fn collected_rules(sources: Seq<RuleSource>) -> Seq<Seq<char>>
    decreases sources.len(),
{
    if sources.len() == 0 {
        Seq::<Seq<char>>::empty()
    } else {
        collected_rules(sources.drop_last()) + ruleset_rules(sources.last())
    }
}

/// Whether the rule carries the `no-resolve` option.
pub open spec fn has_no_resolve(rule: Seq<char>) -> bool {
    has_infix(rule, "no-resolve"@)
}

/// A rule can be written: one with the `no-resolve` option has at least four
/// comma-separated fields.
pub open spec fn writable_rule(rule: Seq<char>) -> bool {
    has_no_resolve(rule) ==> split_on(rule, ',').len() >= 4
}

/// The rule as it is written: a rule with the `no-resolve` option has its third and
/// fourth fields swapped, so that the option comes last.
pub open spec fn written_rule(rule: Seq<char>) -> Seq<char> {
    if has_no_resolve(rule) {
        let fields = split_on(rule, ',');
        join(fields.update(2, fields[3]).update(3, fields[2]), ","@)
    } else {
        rule
    }
}

/// The rules section listing `rules`.
pub open spec fn rules_section(rules: Seq<Seq<char>>) -> Seq<char> {
    "rules:\n"@ + concat(rules.map_values(|r: Seq<char>| "  - "@ + written_rule(r) + "\n"@))
}

/// The tagged rules of `lines` for `group`.
fn tag_lines(lines: &Vec<Vec<char>>, group: &Vec<char>) -> (r: Vec<Vec<char>>)
    ensures
        views(r@) == tagged_rules(views(lines@), group@),
{
    let ghost all = views(lines@);
    let mut out: Vec<Vec<char>> = Vec::new();
    let hash = chars_of("#");
    assert(all.take(0) =~= Seq::<Seq<char>>::empty());
    assert(views(out@) =~= Seq::<Seq<char>>::empty());
    for i in 0..lines.len()
        invariant
            all == views(lines@),
            hash@ == "#"@,
            views(out@) == tagged_rules(all.take(i as int), group@),
    {
        assert(all.take(i + 1).drop_last() =~= all.take(i as int));
        assert(all.take(i + 1).last() == lines@[i as int]@);
        if !starts_with_chars(&lines[i], &hash) {
            let mut rule: Vec<char> = Vec::new();
            extend_chars(&mut rule, &lines[i]);
            push_str(&mut rule, ",");
            extend_chars(&mut rule, group);
            let ghost before = out@;
            out.push(rule);
            assert(views(out@) =~= views(before).push(rule@));
        }
    }
    assert(all.take(lines@.len() as int) =~= all);
    out
}

fn starts_with_chars(s: &Vec<char>, p: &Vec<char>) -> (r: bool)
    ensures
        r == has_prefix(s@, p@),
{
    crate::text::starts_with(s, p)
}

/// The rules one rule set contributes.
fn source_rules(source: &RuleSource) -> (r: Vec<Vec<char>>)
    ensures
        views(r@) == ruleset_rules(*source),
{
    let name = chars_of(source.ruleset.as_str());
    let group = chars_of(source.group.as_str());
    if same_chars(&name, &chars_of("MATCH")) {
        let mut rule = chars_of("MATCH");
        push_str(&mut rule, ",");
        extend_chars(&mut rule, &group);
        let mut out: Vec<Vec<char>> = Vec::new();
        out.push(rule);
        assert(views(out@) =~= ruleset_rules(*source));
        out
    } else {
        let file_lines = lines_chars(&chars_of(source.content.as_str()));
        tag_lines(&file_lines, &group)
    }
}

/// The rules of all of `sources`, in order.
fn all_rules(sources: &Vec<RuleSource>) -> (r: Vec<Vec<char>>)
    ensures
        views(r@) == collected_rules(sources@),
{
    let mut out: Vec<Vec<char>> = Vec::new();
    assert(sources@.take(0) =~= Seq::<RuleSource>::empty());
    assert(views(out@) =~= Seq::<Seq<char>>::empty());
    for i in 0..sources.len()
        invariant
            views(out@) == collected_rules(sources@.take(i as int)),
    {
        let more = source_rules(&sources[i]);
        let ghost before = out@;
        for j in 0..more.len()
            invariant
                views(out@) == views(before) + views(more@).take(j as int),
        {
            let mut copy: Vec<char> = Vec::new();
            extend_chars(&mut copy, &more[j]);
            let ghost mid = out@;
            out.push(copy);
            assert(views(out@) =~= views(mid).push(copy@));
            assert(views(more@).take(j + 1) =~= views(more@).take(j as int).push(more@[j as int]@));
        }
        assert(views(more@).take(more@.len() as int) =~= views(more@));
        assert(sources@.take(i + 1).drop_last() =~= sources@.take(i as int));
        assert(sources@.take(i + 1).last() == sources@[i as int]);
    }
    assert(sources@.take(sources@.len() as int) =~= sources@);
    out
}

/// Whether every rule of `sources` can be written.
pub fn rules_writable(sources: &Vec<RuleSource>) -> (b: bool)
    ensures
        b == (forall|i: int|
            0 <= i < collected_rules(sources@).len() ==> writable_rule(
                #[trigger] collected_rules(sources@)[i],
            )),
{
    let rules = all_rules(sources);
    let ghost all = views(rules@);
    let flag = chars_of("no-resolve");
    proof {
        reveal_strlit("no-resolve");
    }
    assert(is_plain_literal(flag@));
    let compiled = match compile_pattern("no-resolve") {
        Some(c) => c,
        None => {
            assert(false);
            return false;
        },
    };
    for i in 0..rules.len()
        invariant
            all == views(rules@),
            all == collected_rules(sources@),
            compiled.source() == "no-resolve"@,
            is_plain_literal("no-resolve"@),
            forall|k: int| 0 <= k < i ==> writable_rule(#[trigger] all[k]),
    {
        let text = string_of(&rules[i]);
        if is_match(&compiled, text.as_str()) {
            let fields = split_chars(&rules[i], ',');
            if fields.len() < 4 {
                assert(!writable_rule(all[i as int]));
                return false;
            }
        }
        assert(writable_rule(all[i as int]));
    }
    true
}

/// Writes the rules section: the rules of every rule set in order, `MATCH,group`
/// for the catch-all rule set and, for any other, each line of its file that does
/// not start with `#`, followed by a comma and the group. A rule with the
/// `no-resolve` option has its third and fourth fields swapped.
pub fn generate_rules(sources: &Vec<RuleSource>) -> (r: String)
    requires
        forall|i: int|
            0 <= i < collected_rules(sources@).len() ==> writable_rule(
                #[trigger] collected_rules(sources@)[i],
            ),
    ensures
        r@ == rules_section(collected_rules(sources@)),
{
    let rules = all_rules(sources);
    let ghost all = views(rules@);
    let ghost items = all.map_values(|r: Seq<char>| "  - "@ + written_rule(r) + "\n"@);
    proof {
        reveal_strlit("no-resolve");
    }
    assert(is_plain_literal("no-resolve"@));
    let compiled = match compile_pattern("no-resolve") {
        Some(c) => c,
        None => {
            assert(false);
            return String::new();
        },
    };
    let mut out: Vec<char> = Vec::new();
    push_str(&mut out, "rules:\n");
    assert(items.take(0) =~= Seq::<Seq<char>>::empty());
    for i in 0..rules.len()
        invariant
            all == views(rules@),
            all == collected_rules(sources@),
            items == all.map_values(|r: Seq<char>| "  - "@ + written_rule(r) + "\n"@),
            compiled.source() == "no-resolve"@,
            is_plain_literal("no-resolve"@),
            forall|k: int| 0 <= k < all.len() ==> writable_rule(#[trigger] all[k]),
            out@ == "rules:\n"@ + concat(items.take(i as int)),
    {
        let text = string_of(&rules[i]);
        let rule = if is_match(&compiled, text.as_str()) {
            assert(writable_rule(all[i as int]));
            let fields = split_chars(&rules[i], ',');
            swap_and_join(fields)
        } else {
            let mut copy: Vec<char> = Vec::new();
            extend_chars(&mut copy, &rules[i]);
            copy
        };
        assert(rule@ == written_rule(all[i as int]));
        push_str(&mut out, "  - ");
        extend_chars(&mut out, &rule);
        push_str(&mut out, "\n");
        assert(items.take(i + 1) =~= items.take(i as int).push(items[i as int]));
        proof {
            lemma_concat_push(items.take(i as int), items[i as int]);
        }
        assert(out@ =~= "rules:\n"@ + concat(items.take(i + 1)));
    }
    assert(items.take(all.len() as int) =~= items);
    string_of(&out)
}

/// The fields with the third and fourth swapped, joined by commas.
fn swap_and_join(fields: Vec<Vec<char>>) -> (r: Vec<char>)
    requires
        fields@.len() >= 4,
    ensures
        r@ == join(views(fields@).update(2, views(fields@)[3]).update(3, views(fields@)[2]), ","@),
{
    let mut fields = fields;
    let ghost given = views(fields@);
    let third = fields.remove(2);
    fields.insert(2, Vec::new());
    let fourth = fields.remove(3);
    fields.insert(3, third);
    fields.set(2, fourth);
    assert(views(fields@) =~= given.update(2, given[3]).update(3, given[2]));
    join_chars(&fields, &chars_of(","))
}

// ---------------------------------------------------------------------------
// Rule lines of a configuration file.
// ---------------------------------------------------------------------------
/// The rule file a configuration rule line names: the text before its first comma.
pub open spec fn rule_path(line: Seq<char>) -> Seq<char> {
    split_once(line, ',')[0]
}

/// The group a configuration rule line names: the text after its first comma, or
/// nothing when it has none.
pub open spec fn rule_group(line: Seq<char>) -> Seq<char> {
    let parts = split_once(line, ',');
    if parts.len() > 1 {
        parts[1]
    } else {
        Seq::<char>::empty()
    }
}

/// The rules a configuration rule line stands for, given the text of the rule file
/// it names when that file exists: the file's tagged rules, or the line itself.
pub open spec fn expanded_rule_line(line: Seq<char>, file: Option<Seq<char>>) -> Seq<Seq<char>> {
    match file {
        Some(content) => file_rules(content, rule_group(line)),
        None => seq![line],
    }
}

/// The rules that the configuration rule lines `rules` stand for, in order.
pub open spec fn expanded_rules(rules: Seq<Seq<char>>, files: Seq<Option<Seq<char>>>) -> Seq<Seq<char>>
    decreases rules.len(),
{
    if rules.len() == 0 || files.len() == 0 {
        Seq::<Seq<char>>::empty()
    } else {
        expanded_rules(rules.drop_last(), files.drop_last()) + expanded_rule_line(
            rules.last(),
            files.last(),
        )
    }
}

/// The views of optional file texts.
pub open spec fn file_views(files: Seq<Option<String>>) -> Seq<Option<Seq<char>>> {
    files.map_values(
        |f: Option<String>|
            match f {
                Some(s) => Some(s@),
                None => None,
            },
    )
}

/// The rule file that a configuration rule line names and the group it sends the
/// file's rules to.
pub fn rule_target(line: &str) -> (r: (String, String))
    ensures
        r.0@ == rule_path(line@),
        r.1@ == rule_group(line@),
{
    let chars = chars_of(line);
    let parts = split_chars(&chars, ',');
    proof {
        crate::text::lemma_split_not_empty(line@, ',');
    }
    let path = string_of(&parts[0]);
    if parts.len() > 1 {
        proof {
            lemma_first_piece_fits(line@, ',');
        }
        assert(views(parts@)[0] == parts@[0]@);
        assert(parts@[0]@ == split_on(chars@, ',')[0]);
        let total = chars.len();
        let first = parts[0].len();
        assert(first + 1 <= total);
        let start = first + 1;
        let rest = crate::text::slice_chars(&chars, start, chars.len());
        assert(rest@ =~= line@.skip(start as int));
        (path, string_of(&rest))
    } else {
        (path, String::new())
    }
}

/// The first piece of a split is no longer than the string.
proof fn lemma_first_piece_short(s: Seq<char>, sep: char)
    ensures
        split_on(s, sep)[0].len() <= s.len(),
    decreases s.len(),
{
    if s.len() > 0 {
        let init = split_on(s.drop_last(), sep);
        crate::text::lemma_split_not_empty(s.drop_last(), sep);
        lemma_first_piece_short(s.drop_last(), sep);
        if s.last() == sep {
            assert(split_on(s, sep)[0] == init[0]);
        } else if init.len() > 1 {
            assert(split_on(s, sep)[0] == init[0]);
        } else {
            assert(split_on(s, sep)[0] == init[0].push(s.last()));
        }
    }
}

/// When there is a separator, the first piece and the separator fit in the string.
proof fn lemma_first_piece_fits(s: Seq<char>, sep: char)
    requires
        split_on(s, sep).len() > 1,
    ensures
        split_on(s, sep)[0].len() + 1 <= s.len(),
    decreases s.len(),
{
    if s.len() > 0 {
        let init = split_on(s.drop_last(), sep);
        crate::text::lemma_split_not_empty(s.drop_last(), sep);
        lemma_first_piece_short(s.drop_last(), sep);
        if s.last() == sep {
            assert(split_on(s, sep)[0] == init[0]);
        } else {
            assert(init.len() > 1);
            lemma_first_piece_fits(s.drop_last(), sep);
            assert(split_on(s, sep)[0] == init[0]);
        }
    }
}

/// The rules a configuration rule line stands for: when the rule file it names
/// exists (`file` holds its text), each line of that file not starting with `#`,
/// followed by a comma and the line's group; otherwise the line itself.
pub fn expand_rule_line(line: &String, file: &Option<String>) -> (r: Vec<String>)
    ensures
        string_views(r@) == expanded_rule_line(
            line@,
            match file {
                Some(s) => Some(s@),
                None => None,
            },
        ),
{
    match file {
        Some(content) => {
            let (_, group) = rule_target(line.as_str());
            let file_lines = lines_chars(&chars_of(content.as_str()));
            let tagged = tag_lines(&file_lines, &chars_of(group.as_str()));
            crate::nodes::strings_of(&tagged)
        },
        None => {
            let mut out: Vec<String> = Vec::new();
            out.push(line.clone());
            assert(string_views(out@) =~= seq![line@]);
            out
        },
    }
}

/// The rules that the configuration rule lines `rules` stand for, where `files[i]`
/// holds the text of the rule file that `rules[i]` names if that file exists.
pub fn expand_rules(rules: &Vec<String>, files: &Vec<Option<String>>) -> (r: Vec<String>)
    requires
        files@.len() == rules@.len(),
    ensures
        string_views(r@) == expanded_rules(string_views(rules@), file_views(files@)),
{
    let ghost lines_v = string_views(rules@);
    let ghost files_v = file_views(files@);
    let mut out: Vec<String> = Vec::new();
    assert(lines_v.take(0) =~= Seq::<Seq<char>>::empty());
    assert(string_views(out@) =~= Seq::<Seq<char>>::empty());
    for i in 0..rules.len()
        invariant
            files@.len() == rules@.len(),
            lines_v == string_views(rules@),
            files_v == file_views(files@),
            string_views(out@) == expanded_rules(lines_v.take(i as int), files_v.take(i as int)),
    {
        let more = expand_rule_line(&rules[i], &files[i]);
        let ghost before = out@;
        for j in 0..more.len()
            invariant
                string_views(out@) == string_views(before) + string_views(more@).take(j as int),
        {
            let ghost mid = out@;
            let copy = more[j].clone();
            out.push(copy);
            assert(string_views(out@) =~= string_views(mid).push(copy@));
            assert(string_views(more@).take(j + 1) =~= string_views(more@).take(j as int).push(
                more@[j as int]@,
            ));
        }
        assert(string_views(more@).take(more@.len() as int) =~= string_views(more@));
        assert(lines_v.take(i + 1).drop_last() =~= lines_v.take(i as int));
        assert(files_v.take(i + 1).drop_last() =~= files_v.take(i as int));
        assert(lines_v.take(i + 1).last() == rules@[i as int]@);
        assert(files_v.take(i + 1).last() == files_v[i as int]);
    }
    assert(lines_v.take(rules@.len() as int) =~= lines_v);
    assert(files_v.take(rules@.len() as int) =~= files_v);
    out
}

// ---------------------------------------------------------------------------
// Laws.
// ---------------------------------------------------------------------------
/// A rule is written with all of its comma-separated fields: a rule with the
/// `no-resolve` option has exactly its third and fourth fields exchanged, and any
/// other rule is written as it is.
pub proof fn lemma_written_rule_fields(rule: Seq<char>)
    requires
        writable_rule(rule),
    ensures
        has_no_resolve(rule) ==> split_on(written_rule(rule), ',') == split_on(rule, ',').update(
            2,
            split_on(rule, ',')[3],
        ).update(3, split_on(rule, ',')[2]),
        !has_no_resolve(rule) ==> written_rule(rule) == rule,
{
    if has_no_resolve(rule) {
        reveal_strlit(",");
        assert(","@ =~= seq![',']);
        let fields = split_on(rule, ',');
        lemma_split_pieces_free_of_separator(rule, ',');
        let swapped = fields.update(2, fields[3]).update(3, fields[2]);
        assert forall|i: int| 0 <= i < swapped.len() implies !(#[trigger] swapped[i]).contains(',') by {
            if i == 2 {
                assert(swapped[2] == fields[3]);
            } else if i == 3 {
                assert(swapped[3] == fields[2]);
            } else {
                assert(swapped[i] == fields[i]);
            }
        }
        lemma_split_join(swapped, ',');
    }
}

/// Where no rule line names an existing rule file, the rule lines stay as they are.
pub proof fn lemma_rules_without_files_unchanged(rules: Seq<Seq<char>>, files: Seq<Option<Seq<char>>>)
    requires
        files.len() == rules.len(),
        forall|i: int| 0 <= i < files.len() ==> #[trigger] files[i] is None,
    ensures
        expanded_rules(rules, files) == rules,
    decreases rules.len(),
{
    if rules.len() > 0 {
        let fs = files.drop_last();
        assert forall|i: int| 0 <= i < fs.len() implies #[trigger] fs[i] is None by {
            assert(fs[i] == files[i]);
        }
        lemma_rules_without_files_unchanged(rules.drop_last(), fs);
        assert(files[files.len() - 1] == files.last());
        assert(rules.drop_last() + seq![rules.last()] =~= rules);
    }
}

/// Writing a rule twice gives the rule back: the `no-resolve` option survives the
/// exchange of the third and fourth fields, which a second exchange undoes.
pub proof fn lemma_written_rule_involution(rule: Seq<char>)
    requires
        writable_rule(rule),
    ensures
        writable_rule(written_rule(rule)),
        written_rule(written_rule(rule)) == rule,
{
    lemma_written_rule_fields(rule);
    if has_no_resolve(rule) {
        reveal_strlit(",");
        reveal_strlit("no-resolve");
        assert(","@ =~= seq![',']);
        let flag = "no-resolve"@;
        assert(!flag.contains(',')) by {
            if flag.contains(',') {
                let k = choose|k: int| 0 <= k < flag.len() && flag[k] == ',';
                assert(flag[k] != ',');
            }
        }
        let fields = split_on(rule, ',');
        let swapped = fields.update(2, fields[3]).update(3, fields[2]);
        let w = written_rule(rule);
        lemma_split_not_empty(rule, ',');
        lemma_join_split(rule, ',');
        lemma_infix_in_join(fields, ',', flag);
        lemma_infix_in_join(swapped, ',', flag);
        let k = choose|k: int| 0 <= k < fields.len() && has_infix(#[trigger] fields[k], flag);
        let k2 = if k == 2 {
            3
        } else if k == 3 {
            2
        } else {
            k
        };
        assert(swapped[k2] == fields[k]);
        assert(has_infix(w, flag));
        assert(split_on(w, ',') == swapped);
        assert(swapped.update(2, swapped[3]).update(3, swapped[2]) =~= fields);
    }
}

/// The rules tagged from lines are exactly the lines that do not start with `#`,
/// in order, each followed by a comma and the group.
pub proof fn lemma_tagged_rules_are_filtered_lines(ls: Seq<Seq<char>>, group: Seq<char>)
    ensures
        tagged_rules(ls, group) == ls.filter(|l: Seq<char>| !has_prefix(l, "#"@)).map_values(
            |l: Seq<char>| l + ","@ + group,
        ),
    decreases ls.len(),
{
    reveal(Seq::filter);
    if ls.len() > 0 {
        lemma_tagged_rules_are_filtered_lines(ls.drop_last(), group);
        let kept = ls.drop_last().filter(|l: Seq<char>| !has_prefix(l, "#"@));
        assert(kept.push(ls.last()).map_values(|l: Seq<char>| l + ","@ + group) =~= kept.map_values(
            |l: Seq<char>| l + ","@ + group,
        ).push(ls.last() + ","@ + group));
    } else {
        assert(ls.filter(|l: Seq<char>| !has_prefix(l, "#"@)).len() == 0);
        assert(ls.filter(|l: Seq<char>| !has_prefix(l, "#"@)).map_values(
            |l: Seq<char>| l + ","@ + group,
        ) =~= Seq::<Seq<char>>::empty());
    }
}

proof fn lemma_tagged_rules_concat(xs: Seq<Seq<char>>, ys: Seq<Seq<char>>, group: Seq<char>)
    ensures
        tagged_rules(xs + ys, group) == tagged_rules(xs, group) + tagged_rules(ys, group),
    decreases ys.len(),
{
    if ys.len() == 0 {
        assert(xs + ys =~= xs);
        assert(tagged_rules(xs, group) + tagged_rules(ys, group) =~= tagged_rules(xs, group));
    } else {
        assert((xs + ys).drop_last() =~= xs + ys.drop_last());
        assert((xs + ys).last() == ys.last());
        lemma_tagged_rules_concat(xs, ys.drop_last(), group);
        let a = tagged_rules(xs, group);
        let b = tagged_rules(ys.drop_last(), group);
        assert((a + b).push(ys.last() + ","@ + group) =~= a + b.push(ys.last() + ","@ + group));
    }
}

/// A rule file is read line after line: text joined at a newline gives the rules
/// of the part up to that newline followed by the rules of the rest.
pub proof fn lemma_file_rules_concat(a: Seq<char>, b: Seq<char>, group: Seq<char>)
    ensures
        file_rules(a + seq!['\n'] + b, group) == file_rules(a + seq!['\n'], group) + file_rules(
            b,
            group,
        ),
{
    lemma_lines_concat(a, b);
    lemma_tagged_rules_concat(lines(a + seq!['\n']), lines(b), group);
}

/// A rule file of one line gives that line followed by a comma and the group,
/// unless it is empty or starts with `#`; with a newline after it the line counts
/// even when empty, without a carriage return at its end.
pub proof fn lemma_file_rules_single_line(l: Seq<char>, group: Seq<char>)
    requires
        !l.contains('\n'),
    ensures
        file_rules(l, group) == (if l.len() == 0 || has_prefix(l, "#"@) {
            Seq::<Seq<char>>::empty()
        } else {
            seq![l + ","@ + group]
        }),
        file_rules(l + seq!['\n'], group) == (if has_prefix(strip_carriage_return(l), "#"@) {
            Seq::<Seq<char>>::empty()
        } else {
            seq![strip_carriage_return(l) + ","@ + group]
        }),
{
    lemma_lines_single(l);
    assert(tagged_rules(Seq::<Seq<char>>::empty(), group) == Seq::<Seq<char>>::empty());
    let one = seq![l];
    assert(one.drop_last() =~= Seq::<Seq<char>>::empty());
    assert(one.last() == l);
    let two = seq![strip_carriage_return(l)];
    assert(two.drop_last() =~= Seq::<Seq<char>>::empty());
    assert(two.last() == strip_carriage_return(l));
    assert(Seq::<Seq<char>>::empty().push(l + ","@ + group) =~= seq![l + ","@ + group]);
    assert(Seq::<Seq<char>>::empty().push(strip_carriage_return(l) + ","@ + group) =~= seq![
        strip_carriage_return(l) + ","@ + group,
    ]);
    if l.len() > 0 {
        assert(file_rules(l, group) == tagged_rules(one, group));
    }
    assert(file_rules(l + seq!['\n'], group) == tagged_rules(two, group));
}

/// The rules of several rule sets are the rules of each set in turn: the catch-all
/// set gives `MATCH,group`, any other the rules of its file.
pub proof fn lemma_collected_rules_in_turn(a: Seq<RuleSource>, b: Seq<RuleSource>, source: RuleSource)
    ensures
        collected_rules(a + b) == collected_rules(a) + collected_rules(b),
        collected_rules(seq![source]) == ruleset_rules(source),
        source.ruleset@ == "MATCH"@ ==> ruleset_rules(source) == seq!["MATCH,"@ + source.group@],
        source.ruleset@ != "MATCH"@ ==> ruleset_rules(source) == file_rules(
            source.content@,
            source.group@,
        ),
    decreases b.len(),
{
    reveal_strlit("MATCH");
    reveal_strlit(",");
    reveal_strlit("MATCH,");
    assert("MATCH"@ + ","@ =~= "MATCH,"@);
    assert(seq![source].drop_last() =~= Seq::<RuleSource>::empty());
    assert(seq![source].last() == source);
    assert(collected_rules(Seq::<RuleSource>::empty()) == Seq::<Seq<char>>::empty());
    assert(Seq::<Seq<char>>::empty() + ruleset_rules(source) =~= ruleset_rules(source));
    if b.len() == 0 {
        assert(a + b =~= a);
        assert(collected_rules(a) + collected_rules(b) =~= collected_rules(a));
    } else {
        assert((a + b).drop_last() =~= a + b.drop_last());
        assert((a + b).last() == b.last());
        lemma_collected_rules_in_turn(a, b.drop_last(), source);
        assert(collected_rules(a) + collected_rules(b.drop_last()) + ruleset_rules(b.last())
            =~= collected_rules(a) + (collected_rules(b.drop_last()) + ruleset_rules(b.last())));
    }
}

/// A configuration rule line names the rule file before its first comma and the
/// group after it; a line without a comma names a file and no group.
pub proof fn lemma_rule_line_parts(line: Seq<char>)
    ensures
        line.contains(',') ==> rule_path(line) + ","@ + rule_group(line) == line && !rule_path(
            line,
        ).contains(','),
        !line.contains(',') ==> rule_path(line) == line && rule_group(line) == Seq::<char>::empty(),
{
    reveal_strlit(",");
    assert(","@ =~= seq![',']);
    lemma_split_first_two_pieces(line, ',');
    lemma_split_pieces_free_of_separator(line, ',');
    lemma_split_not_empty(line, ',');
    let parts = split_on(line, ',');
    if line.contains(',') {
        let p = parts[0];
        assert(line[p.len() as int] == ',') by {
            assert(line.subrange(0, (p + seq![','] + parts[1]).len() as int) =~= p + seq![',']
                + parts[1]);
            assert(line.subrange(0, (p + seq![','] + parts[1]).len() as int)[p.len() as int]
                == ',');
        }
        assert(line.subrange(0, p.len() as int) =~= p) by {
            assert(line.subrange(0, (p + seq![','] + parts[1]).len() as int) =~= p + seq![',']
                + parts[1]);
            assert forall|i: int| 0 <= i < p.len() implies line[i] == p[i] by {
                assert(line.subrange(0, (p + seq![','] + parts[1]).len() as int)[i] == line[i]);
            }
        }
        assert(p + seq![','] + line.skip(p.len() + 1int) =~= line);
        assert(!p.contains(','));
    } else {
        lemma_join_split(line, ',');
        assert(join(parts, seq![',']) == parts[0]);
    }
}

/// Expanding rule lines expands each line in turn: a line whose rule file exists
/// stands for the rules of that file sent to the line's group, any other line for
/// itself.
pub proof fn lemma_expanded_rules_in_turn(
    r1: Seq<Seq<char>>,
    f1: Seq<Option<Seq<char>>>,
    r2: Seq<Seq<char>>,
    f2: Seq<Option<Seq<char>>>,
)
    requires
        r1.len() == f1.len(),
        r2.len() == f2.len(),
    ensures
        expanded_rules(r1 + r2, f1 + f2) == expanded_rules(r1, f1) + expanded_rules(r2, f2),
        r1.len() == 1 ==> expanded_rules(r1, f1) == (match f1[0] {
            Some(content) => file_rules(content, rule_group(r1[0])),
            None => seq![r1[0]],
        }),
    decreases r2.len(),
{
    if r1.len() == 1 {
        assert(r1.drop_last().len() == 0);
        assert(r1.last() == r1[0] && f1.last() == f1[0]);
        assert(expanded_rules(r1.drop_last(), f1.drop_last()) == Seq::<Seq<char>>::empty());
        assert(Seq::<Seq<char>>::empty() + expanded_rule_line(r1[0], f1[0]) =~= expanded_rule_line(
            r1[0],
            f1[0],
        ));
    }
    if r2.len() == 0 {
        assert(r1 + r2 =~= r1);
        assert(f1 + f2 =~= f1);
        assert(expanded_rules(r1, f1) + expanded_rules(r2, f2) =~= expanded_rules(r1, f1));
    } else {
        assert((r1 + r2).drop_last() =~= r1 + r2.drop_last());
        assert((f1 + f2).drop_last() =~= f1 + f2.drop_last());
        assert((r1 + r2).last() == r2.last());
        assert((f1 + f2).last() == f2.last());
        lemma_expanded_rules_in_turn(r1, f1, r2.drop_last(), f2.drop_last());
        let x = expanded_rules(r1, f1);
        let y = expanded_rules(r2.drop_last(), f2.drop_last());
        let z = expanded_rule_line(r2.last(), f2.last());
        assert(x + y + z =~= x + (y + z));
    }
}

} // verus!
