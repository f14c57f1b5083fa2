use vstd::prelude::*;

verus! {

// ---------------------------------------------------------------------------
// Specifications of the string operations the library relies on.
// Every string is modelled by its sequence of characters.
// ---------------------------------------------------------------------------
/// `p` is a prefix of `s`.
pub open spec fn has_prefix(s: Seq<char>, p: Seq<char>) -> bool {
    p.len() <= s.len() && s.subrange(0, p.len() as int) == p
}

/// `p` occurs somewhere in `s`.
pub open spec fn has_infix(s: Seq<char>, p: Seq<char>) -> bool {
    exists|i: int| 0 <= i && i + p.len() <= s.len() && #[trigger] s.subrange(i, i + p.len()) == p
}

/// Replaces every non-overlapping occurrence of `from` in `s`, scanning from the
/// left, by `to` (what `str::replace` does for a non-empty pattern).
pub open spec fn replace_all(s: Seq<char>, from: Seq<char>, to: Seq<char>) -> Seq<char>
    decreases s.len(),
{
    if from.len() == 0 || s.len() == 0 {
        s
    } else if has_prefix(s, from) {
        to + replace_all(s.skip(from.len() as int), from, to)
    } else {
        seq![s[0]] + replace_all(s.skip(1), from, to)
    }
}

/// Replaces the first occurrence of `from` in `s` by `to` (what `str::replacen` does
/// with a count of one and a non-empty pattern).
pub open spec fn replace_first(s: Seq<char>, from: Seq<char>, to: Seq<char>) -> Seq<char>
    decreases s.len(),
{
    if from.len() == 0 || s.len() == 0 {
        s
    } else if has_prefix(s, from) {
        to + s.skip(from.len() as int)
    } else {
        seq![s[0]] + replace_first(s.skip(1), from, to)
    }
}

/// The pieces of `s` between occurrences of `sep` (what `str::split` with a
/// character yields): one more piece than there are separators.
pub open spec fn split_on(s: Seq<char>, sep: char) -> Seq<Seq<char>>
    decreases s.len(),
{
    if s.len() == 0 {
        seq![Seq::<char>::empty()]
    } else {
        let parts = split_on(s.drop_last(), sep);
        if s.last() == sep {
            parts.push(Seq::<char>::empty())
        } else {
            parts.update(parts.len() - 1, parts.last().push(s.last()))
        }
    }
}

/// The pieces of `s` between occurrences of any character of `seps`: one more
/// piece than there are separators.
pub open spec fn split_on_any(s: Seq<char>, seps: Seq<char>) -> Seq<Seq<char>>
    decreases s.len(),
{
    if s.len() == 0 {
        seq![Seq::<char>::empty()]
    } else {
        let parts = split_on_any(s.drop_last(), seps);
        if seps.contains(s.last()) {
            parts.push(Seq::<char>::empty())
        } else {
            parts.update(parts.len() - 1, parts.last().push(s.last()))
        }
    }
}

/// The pieces of `s` before and after the first `sep`, or `s` alone when it holds
/// none (what `str::splitn(2, ..)` yields for a one-character pattern).
pub open spec fn split_once(s: Seq<char>, sep: char) -> Seq<Seq<char>> {
    let parts = split_on(s, sep);
    if parts.len() <= 1 {
        parts
    } else {
        seq![parts[0], s.skip(parts[0].len() + 1int)]
    }
}

/// The pieces of `parts` separated by `sep`.
pub open spec fn join(parts: Seq<Seq<char>>, sep: Seq<char>) -> Seq<char>
    decreases parts.len(),
{
    if parts.len() == 0 {
        Seq::<char>::empty()
    } else if parts.len() == 1 {
        parts[0]
    } else {
        join(parts.drop_last(), sep) + sep + parts.last()
    }
}

/// The concatenation of all of `parts`.
pub open spec fn concat(parts: Seq<Seq<char>>) -> Seq<char>
    decreases parts.len(),
{
    if parts.len() == 0 {
        Seq::<char>::empty()
    } else {
        concat(parts.drop_last()) + parts.last()
    }
}

/// Drops one `'\r'` from the end of a line, if it has one.
pub open spec fn strip_carriage_return(line: Seq<char>) -> Seq<char> {
    if line.len() > 0 && line.last() == '\r' {
        line.drop_last()
    } else {
        line
    }
}

/// The lines of `s` (what `str::lines` yields): pieces ended by `'\n'` lose that
/// newline and a `'\r'` before it; a last piece without a newline is kept as it is
/// unless it is empty.
pub open spec fn lines(s: Seq<char>) -> Seq<Seq<char>> {
    let parts = split_on(s, '\n');
    let ended = parts.drop_last().map_values(|l: Seq<char>| strip_carriage_return(l));
    if parts.last().len() == 0 {
        ended
    } else {
        ended.push(parts.last())
    }
}

/// The characters with the Unicode `White_Space` property (what `char::is_whitespace`
/// tests).
pub open spec fn is_white_space(c: char) -> bool {
    ||| ('\u{9}' <= c && c <= '\u{d}')
    ||| c == ' '
    ||| c == '\u{85}'
    ||| c == '\u{a0}'
    ||| c == '\u{1680}'
    ||| ('\u{2000}' <= c && c <= '\u{200a}')
    ||| c == '\u{2028}'
    ||| c == '\u{2029}'
    ||| c == '\u{202f}'
    ||| c == '\u{205f}'
    ||| c == '\u{3000}'
}

/// `s` without its leading white space.
pub open spec fn trim_start(s: Seq<char>) -> Seq<char>
    decreases s.len(),
{
    if s.len() > 0 && is_white_space(s[0]) {
        trim_start(s.drop_first())
    } else {
        s
    }
}

/// `s` without its trailing white space.
pub open spec fn trim_end(s: Seq<char>) -> Seq<char>
    decreases s.len(),
{
    if s.len() > 0 && is_white_space(s.last()) {
        trim_end(s.drop_last())
    } else {
        s
    }
}

/// `s` without leading and trailing white space (what `str::trim` yields).
pub open spec fn trim(s: Seq<char>) -> Seq<char> {
    trim_end(trim_start(s))
}

/// The decimal digit for `d < 10`.
pub open spec fn digit_char(d: nat) -> char {
    if d == 0 { '0' }
    else if d == 1 { '1' }
    else if d == 2 { '2' }
    else if d == 3 { '3' }
    else if d == 4 { '4' }
    else if d == 5 { '5' }
    else if d == 6 { '6' }
    else if d == 7 { '7' }
    else if d == 8 { '8' }
    else { '9' }
}

/// The decimal representation of `n`, without leading zeros (what `{}` prints for
/// an unsigned integer).
pub open spec fn decimal(n: nat) -> Seq<char>
    decreases n,
{
    if n < 10 {
        seq![digit_char(n)]
    } else {
        decimal(n / 10).push(digit_char(n % 10))
    }
}

/// The views of a sequence of character vectors.
pub open spec fn views(v: Seq<Vec<char>>) -> Seq<Seq<char>> {
    v.map_values(|p: Vec<char>| p@)
}

/// The views of a sequence of strings.
pub open spec fn string_views(v: Seq<String>) -> Seq<Seq<char>> {
    v.map_values(|p: String| p@)
}

// ---------------------------------------------------------------------------
// Executable operations on character vectors.
// ---------------------------------------------------------------------------
/// Appends one character to a string.
///
/// Trusted: calls `String::push`, which std documents as appending the
/// character to the end of the string.
#[verifier::external_body]
fn push_char(s: &mut String, c: char)
    ensures
        final(s)@ == old(s)@.push(c),
{
    s.push(c);
}

/// The characters of `s`, in order.
pub fn chars_of(s: &str) -> (v: Vec<char>)
    ensures
        v@ == s@,
{
    let mut v: Vec<char> = Vec::new();
    for c in it: s.chars()
        invariant
            v@ == it.seq().take(it.index() as int),
    {
        v.push(c);
    }
    v
}

/// The string made of the characters of `v`.
pub fn string_of(v: &Vec<char>) -> (s: String)
    ensures
        s@ == v@,
{
    let mut s = String::new();
    let n = v.len();
    for i in 0..n
        invariant
            n == v@.len(),
            s@ == v@.take(i as int),
    {
        push_char(&mut s, v[i]);
        assert(v@.take(i + 1) == v@.take(i as int).push(v@[i as int]));
    }
    assert(v@.take(n as int) == v@);
    s
}

/// Appends the characters of `tail` to `out`.
pub fn extend_chars(out: &mut Vec<char>, tail: &Vec<char>)
    ensures
        final(out)@ == old(out)@ + tail@,
{
    let n = tail.len();
    let ghost start = out@;
    for i in 0..n
        invariant
            n == tail@.len(),
            out@ == start + tail@.take(i as int),
    {
        out.push(tail[i]);
        assert(tail@.take(i + 1) == tail@.take(i as int).push(tail@[i as int]));
    }
    assert(tail@.take(n as int) == tail@);
}

/// Appends the characters of `tail` to `out`.
pub fn push_str(out: &mut Vec<char>, tail: &str)
    ensures
        final(out)@ == old(out)@ + tail@,
{
    let chars = chars_of(tail);
    extend_chars(out, &chars);
}

/// Copies of all of `strings`, in order.
pub fn copy_strings(strings: &Vec<String>) -> (r: Vec<String>)
    ensures
        string_views(r@) == string_views(strings@),
        r@.len() == strings@.len(),
{
    let mut out: Vec<String> = Vec::new();
    for i in 0..strings.len()
        invariant
            string_views(out@) == string_views(strings@).take(i as int),
            out@.len() == i,
    {
        let ghost before = out@;
        let s = strings[i].clone();
        out.push(s);
        assert(string_views(out@) =~= string_views(before).push(s@));
        assert(string_views(strings@).take(i + 1) =~= string_views(strings@).take(i as int).push(
            strings@[i as int]@,
        ));
    }
    assert(string_views(strings@).take(strings@.len() as int) =~= string_views(strings@));
    out
}

/// Whether `a` and `b` hold the same characters.
pub fn same_chars(a: &Vec<char>, b: &Vec<char>) -> (r: bool)
    ensures
        r == (a@ == b@),
{
    if a.len() != b.len() {
        return false;
    }
    let n = a.len();
    for i in 0..n
        invariant
            n == a@.len(),
            n == b@.len(),
            forall|j: int| 0 <= j < i ==> a@[j] == b@[j],
    {
        if a[i] != b[i] {
            return false;
        }
    }
    assert(a@ =~= b@);
    true
}

/// Whether `p` is a prefix of `s` starting at position `at`.
fn matches_at(s: &Vec<char>, at: usize, p: &Vec<char>) -> (r: bool)
    requires
        at <= s@.len(),
    ensures
        r == has_prefix(s@.skip(at as int), p@),
{
    if p.len() > s.len() - at {
        return false;
    }
    let n = p.len();
    for j in 0..n
        invariant
            n == p@.len(),
            at + n <= s.len(),
            forall|k: int| 0 <= k < j ==> s@[at + k] == p@[k],
    {
        if s[at + j] != p[j] {
            assert(s@.skip(at as int).subrange(0, n as int)[j as int] != p@[j as int]);
            return false;
        }
    }
    assert(s@.skip(at as int).subrange(0, n as int) =~= p@);
    true
}

/// Whether `s` starts with `p`.
pub fn starts_with(s: &Vec<char>, p: &Vec<char>) -> (r: bool)
    ensures
        r == has_prefix(s@, p@),
{
    assert(s@.skip(0) == s@);
    matches_at(s, 0, p)
}

/// `s` with every occurrence of the non-empty `from` replaced by `to`.
pub fn replace_all_chars(s: &Vec<char>, from: &Vec<char>, to: &Vec<char>) -> (r: Vec<char>)
    requires
        from@.len() > 0,
    ensures
        r@ == replace_all(s@, from@, to@),
{
    let mut out: Vec<char> = Vec::new();
    let mut i: usize = 0;
    let n = s.len();
    assert(s@.skip(0) == s@);
    while i < n
        invariant
            n == s@.len(),
            i <= n,
            from@.len() > 0,
            replace_all(s@, from@, to@) == out@ + replace_all(s@.skip(i as int), from@, to@),
        decreases n - i,
    {
        if matches_at(s, i, from) {
            extend_chars(&mut out, to);
            assert(s@.skip(i as int).skip(from@.len() as int) == s@.skip(i + from@.len()));
            i = i + from.len();
        } else {
            out.push(s[i]);
            assert(s@.skip(i as int).skip(1) == s@.skip(i + 1));
            i = i + 1;
        }
    }
    assert(s@.skip(n as int).len() == 0);
    out
}

/// `s` with the first occurrence of the non-empty `from` replaced by `to`.
pub fn replace_first_chars(s: &Vec<char>, from: &Vec<char>, to: &Vec<char>) -> (r: Vec<char>)
    requires
        from@.len() > 0,
    ensures
        r@ == replace_first(s@, from@, to@),
{
    let mut out: Vec<char> = Vec::new();
    let mut i: usize = 0;
    let n = s.len();
    assert(s@.skip(0) == s@);
    while i < n
        invariant
            n == s@.len(),
            i <= n,
            from@.len() > 0,
            replace_first(s@, from@, to@) == out@ + replace_first(s@.skip(i as int), from@, to@),
        decreases n - i,
    {
        if matches_at(s, i, from) {
            extend_chars(&mut out, to);
            let mut j = i + from.len();
            let ghost mid = out@;
            while j < n
                invariant
                    n == s@.len(),
                    i + from@.len() <= j <= n,
                    out@ == mid + s@.subrange(i + from@.len(), j as int),
                decreases n - j,
            {
                out.push(s[j]);
                assert(s@.subrange(i + from@.len(), j + 1) == s@.subrange(
                    i + from@.len(),
                    j as int,
                ).push(s@[j as int]));
                j = j + 1;
            }
            assert(s@.skip(i as int).skip(from@.len() as int) == s@.subrange(
                i + from@.len(),
                n as int,
            ));
            return out;
        } else {
            out.push(s[i]);
            assert(s@.skip(i as int).skip(1) == s@.skip(i + 1));
            i = i + 1;
        }
    }
    assert(s@.skip(n as int).len() == 0);
    out
}

/// The characters of `s` from `start` up to `end`.
pub fn slice_chars(s: &Vec<char>, start: usize, end: usize) -> (r: Vec<char>)
    requires
        start <= end <= s@.len(),
    ensures
        r@ == s@.subrange(start as int, end as int),
{
    let mut out: Vec<char> = Vec::new();
    for j in start..end
        invariant
            end <= s@.len(),
            out@ == s@.subrange(start as int, j as int),
    {
        out.push(s[j]);
        assert(s@.subrange(start as int, j + 1) == s@.subrange(start as int, j as int).push(
            s@[j as int],
        ));
    }
    out
}

/// The pieces of `s` between occurrences of `sep`.
pub fn split_chars(s: &Vec<char>, sep: char) -> (parts: Vec<Vec<char>>)
    ensures
        views(parts@) == split_on(s@, sep),
{
    let mut parts: Vec<Vec<char>> = Vec::new();
    let mut current: Vec<char> = Vec::new();
    let n = s.len();
    assert(s@.take(0) =~= Seq::<char>::empty());
    assert(views(parts@).push(current@) =~= split_on(s@.take(0), sep));
    for i in 0..n
        invariant
            n == s@.len(),
            views(parts@).push(current@) == split_on(s@.take(i as int), sep),
    {
        let c = s[i];
        let ghost before = split_on(s@.take(i as int), sep);
        assert(s@.take(i + 1).drop_last() =~= s@.take(i as int));
        assert(s@.take(i + 1).last() == c);
        if c == sep {
            parts.push(current);
            current = Vec::new();
            assert(views(parts@).push(current@) =~= before.push(Seq::<char>::empty()));
        } else {
            current.push(c);
            assert(views(parts@).push(current@) =~= before.update(
                before.len() - 1,
                before.last().push(c),
            ));
        }
    }
    assert(s@.take(n as int) =~= s@);
    parts.push(current);
    parts
}

/// The pieces of `parts` separated by `sep`.
pub fn join_chars(parts: &Vec<Vec<char>>, sep: &Vec<char>) -> (r: Vec<char>)
    ensures
        r@ == join(views(parts@), sep@),
{
    let mut out: Vec<char> = Vec::new();
    let n = parts.len();
    assert(views(parts@).take(0) =~= Seq::<Seq<char>>::empty());
    for i in 0..n
        invariant
            n == parts@.len(),
            out@ == join(views(parts@).take(i as int), sep@),
    {
        let ghost prev = views(parts@).take(i as int);
        assert(views(parts@).take(i + 1).drop_last() =~= prev);
        if i > 0 {
            extend_chars(&mut out, sep);
        }
        extend_chars(&mut out, &parts[i]);
        if i == 0 {
            assert(out@ =~= join(views(parts@).take(i + 1), sep@));
        }
    }
    assert(views(parts@).take(n as int) =~= views(parts@));
    out
}

/// The lines of `s`.
pub fn lines_chars(s: &Vec<char>) -> (r: Vec<Vec<char>>)
    ensures
        views(r@) == lines(s@),
{
    let parts = split_chars(s, '\n');
    let ghost pv = split_on(s@, '\n');
    let ghost ended = pv.drop_last().map_values(|l: Seq<char>| strip_carriage_return(l));
    proof {
        lemma_split_not_empty(s@, '\n');
    }
    let mut out: Vec<Vec<char>> = Vec::new();
    let k = parts.len() - 1;
    assert(views(out@) =~= ended.take(0));
    for i in 0..k
        invariant
            k + 1 == parts@.len(),
            views(parts@) == pv,
            ended == pv.drop_last().map_values(|l: Seq<char>| strip_carriage_return(l)),
            views(out@) == ended.take(i as int),
    {
        let line = &parts[i];
        assert(line@ == pv[i as int]);
        let m = line.len();
        let stripped = if m > 0 && line[m - 1] == '\r' {
            slice_chars(line, 0, m - 1)
        } else {
            slice_chars(line, 0, m)
        };
        assert(stripped@ =~= strip_carriage_return(pv[i as int]));
        assert(ended[i as int] == strip_carriage_return(pv[i as int]));
        let ghost before = out@;
        out.push(stripped);
        assert(out@ == before.push(stripped));
        assert(views(out@) =~= views(before).push(stripped@));
        assert(ended.take(i + 1) =~= ended.take(i as int).push(ended[i as int]));
    }
    assert(ended.take(k as int) =~= ended);
    let last = &parts[k];
    assert(last@ == pv.last());
    if last.len() > 0 {
        let copy = slice_chars(last, 0, last.len());
        assert(copy@ =~= pv.last());
        out.push(copy);
        assert(views(out@) =~= ended.push(pv.last()));
    }
    out
}

/// Whether `c` has the Unicode `White_Space` property.
pub fn is_white_space_char(c: char) -> (r: bool)
    ensures
        r == is_white_space(c),
{
    ('\u{9}' <= c && c <= '\u{d}') || c == ' ' || c == '\u{85}' || c == '\u{a0}' || c
        == '\u{1680}' || ('\u{2000}' <= c && c <= '\u{200a}') || c == '\u{2028}' || c
        == '\u{2029}' || c == '\u{202f}' || c == '\u{205f}' || c == '\u{3000}'
}

proof fn lemma_trim_start_skip(s: Seq<char>, i: int)
    requires
        0 <= i < s.len(),
        is_white_space(s[i]),
    ensures
        trim_start(s.skip(i)) == trim_start(s.skip(i + 1)),
{
    assert(s.skip(i).drop_first() =~= s.skip(i + 1));
}

proof fn lemma_trim_end_take(s: Seq<char>, i: int)
    requires
        0 < i <= s.len(),
        is_white_space(s[i - 1]),
    ensures
        trim_end(s.take(i)) == trim_end(s.take(i - 1)),
{
    assert(s.take(i).drop_last() =~= s.take(i - 1));
}

/// The position of the first character of `s` that is not white space.
fn first_non_white(s: &Vec<char>) -> (a: usize)
    ensures
        a <= s@.len(),
        trim_start(s@) == s@.skip(a as int),
{
    let n = s.len();
    let mut a: usize = 0;
    assert(s@.skip(0) =~= s@);
    while a < n && is_white_space_char(s[a])
        invariant
            n == s@.len(),
            a <= n,
            trim_start(s@) == trim_start(s@.skip(a as int)),
        decreases n - a,
    {
        proof {
            lemma_trim_start_skip(s@, a as int);
        }
        a = a + 1;
    }
    let ghost rest = s@.skip(a as int);
    assert(trim_start(rest) == rest) by {
        if rest.len() > 0 {
            assert(rest[0] == s@[a as int]);
        }
    }
    a
}

/// The position just past the last character of `s` before `end` that is not white
/// space, or `start` if there is none from `start` on.
fn last_non_white(s: &Vec<char>, start: usize) -> (b: usize)
    requires
        start <= s@.len(),
    ensures
        start <= b <= s@.len(),
        trim_end(s@.skip(start as int)) == s@.subrange(start as int, b as int),
{
    let n = s.len();
    let ghost rest = s@.skip(start as int);
    let mut b: usize = n;
    assert(rest.take(rest.len() as int) =~= rest);
    while b > start && is_white_space_char(s[b - 1])
        invariant
            n == s@.len(),
            start <= b <= n,
            rest == s@.skip(start as int),
            trim_end(rest) == trim_end(rest.take(b - start)),
        decreases b,
    {
        proof {
            lemma_trim_end_take(rest, b - start);
        }
        b = b - 1;
    }
    assert(trim_end(rest.take(b - start)) == rest.take(b - start)) by {
        if b > start {
            assert(rest.take(b - start).last() == s@[b - 1]);
        }
    }
    assert(rest.take(b - start) =~= s@.subrange(start as int, b as int));
    b
}

/// `s` without leading and trailing white space.
pub fn trim_chars(s: &Vec<char>) -> (r: Vec<char>)
    ensures
        r@ == trim(s@),
{
    let a = first_non_white(s);
    let b = last_non_white(s, a);
    slice_chars(s, a, b)
}

/// The decimal digit for `d < 10`.
fn digit(d: u64) -> (c: char)
    requires
        d < 10,
    ensures
        c == digit_char(d as nat),
{
    if d == 0 { '0' }
    else if d == 1 { '1' }
    else if d == 2 { '2' }
    else if d == 3 { '3' }
    else if d == 4 { '4' }
    else if d == 5 { '5' }
    else if d == 6 { '6' }
    else if d == 7 { '7' }
    else if d == 8 { '8' }
    else { '9' }
}

/// The decimal representation of `n`.
pub fn decimal_chars(n: u64) -> (r: Vec<char>)
    ensures
        r@ == decimal(n as nat),
    decreases n,
{
    if n < 10 {
        let mut v: Vec<char> = Vec::new();
        v.push(digit(n));
        assert(v@ =~= decimal(n as nat));
        v
    } else {
        let mut v = decimal_chars(n / 10);
        v.push(digit(n % 10));
        v
    }
}

// ---------------------------------------------------------------------------
// Facts about the specifications.
// ---------------------------------------------------------------------------
/// The empty string occurs in every string.
pub proof fn lemma_empty_infix(s: Seq<char>)
    ensures
        has_infix(s, Seq::<char>::empty()),
{
    let e = Seq::<char>::empty();
    assert(s.subrange(0, 0int + e.len()) =~= e);
}

/// Concatenating one more piece appends it.
pub proof fn lemma_concat_push(parts: Seq<Seq<char>>, last: Seq<char>)
    ensures
        concat(parts.push(last)) == concat(parts) + last,
{
    assert(parts.push(last).drop_last() =~= parts);
}

/// Splitting always yields at least one piece.
pub proof fn lemma_split_not_empty(s: Seq<char>, sep: char)
    ensures
        split_on(s, sep).len() >= 1,
    decreases s.len(),
{
    if s.len() > 0 {
        lemma_split_not_empty(s.drop_last(), sep);
    }
}

/// No piece of a split holds the separator.
pub proof fn lemma_split_pieces_free_of_separator(s: Seq<char>, sep: char)
    ensures
        forall|i: int|
            0 <= i < split_on(s, sep).len() ==> !(#[trigger] split_on(s, sep)[i]).contains(sep),
    decreases s.len(),
{
    lemma_split_not_empty(s, sep);
    if s.len() > 0 {
        lemma_split_not_empty(s.drop_last(), sep);
        lemma_split_pieces_free_of_separator(s.drop_last(), sep);
        let parts = split_on(s.drop_last(), sep);
        if s.last() != sep {
            assert forall|i: int| 0 <= i < split_on(s, sep).len() implies !(
            #[trigger] split_on(s, sep)[i]).contains(sep) by {
                if i == parts.len() - 1 {
                    let l = parts.last().push(s.last());
                    if l.contains(sep) {
                        let k = choose|k: int| 0 <= k < l.len() && l[k] == sep;
                        if k < l.len() - 1 {
                            assert(parts.last()[k] == sep);
                        }
                    }
                }
            }
        }
    }
}

proof fn lemma_join_push_last(parts: Seq<Seq<char>>, sep: Seq<char>, c: char)
    requires
        parts.len() >= 1,
    ensures
        join(parts.update(parts.len() - 1, parts.last().push(c)), sep) == join(parts, sep).push(c),
{
    let updated = parts.update(parts.len() - 1, parts.last().push(c));
    if parts.len() >= 2 {
        assert(updated.drop_last() =~= parts.drop_last());
    }
}

/// Joining the pieces of a split with the separator gives back the string.
pub proof fn lemma_join_split(s: Seq<char>, sep: char)
    ensures
        join(split_on(s, sep), seq![sep]) == s,
    decreases s.len(),
{
    if s.len() == 0 {
        assert(join(split_on(s, sep), seq![sep]) =~= s);
    } else {
        let parts = split_on(s.drop_last(), sep);
        lemma_split_not_empty(s.drop_last(), sep);
        lemma_join_split(s.drop_last(), sep);
        if s.last() == sep {
            let pushed = parts.push(Seq::<char>::empty());
            assert(pushed.drop_last() =~= parts);
            assert(join(pushed, seq![sep]) =~= s);
        } else {
            lemma_join_push_last(parts, seq![sep], s.last());
            assert(s.drop_last().push(s.last()) =~= s);
        }
    }
}

proof fn lemma_split_free(b: Seq<char>, sep: char)
    requires
        !b.contains(sep),
    ensures
        split_on(b, sep) == seq![b],
    decreases b.len(),
{
    if b.len() == 0 {
        assert(b =~= Seq::<char>::empty());
        assert(split_on(b, sep) =~= seq![b]);
    } else {
        assert(!b.drop_last().contains(sep)) by {
            if b.drop_last().contains(sep) {
                let k = choose|k: int| 0 <= k < b.drop_last().len() && b.drop_last()[k] == sep;
                assert(b[k] == sep);
            }
        }
        lemma_split_free(b.drop_last(), sep);
        assert(b.last() != sep) by {
            assert(b[b.len() - 1] == b.last());
        }
        let parts = split_on(b.drop_last(), sep);
        assert(parts == seq![b.drop_last()]);
        assert(split_on(b, sep) == parts.update(parts.len() - 1, parts.last().push(b.last())));
        assert(b.drop_last().push(b.last()) =~= b);
        let u = parts.update(0, b.drop_last().push(b.last()));
        assert(u.len() == 1 && u[0] == b);
        assert(u =~= seq![b]);
    }
}

proof fn lemma_split_after_separator(a: Seq<char>, b: Seq<char>, sep: char)
    requires
        !b.contains(sep),
    ensures
        split_on(a + seq![sep] + b, sep) == split_on(a, sep).push(b),
    decreases b.len(),
{
    if b.len() == 0 {
        assert(b =~= Seq::<char>::empty());
        assert((a + seq![sep] + b).drop_last() =~= a);
        assert((a + seq![sep] + b).last() == sep);
        assert(split_on(a + seq![sep] + b, sep) =~= split_on(a, sep).push(b));
    } else {
        let b1 = b.drop_last();
        assert(!b1.contains(sep)) by {
            if b1.contains(sep) {
                let k = choose|k: int| 0 <= k < b1.len() && b1[k] == sep;
                assert(b[k] == sep);
            }
        }
        lemma_split_after_separator(a, b1, sep);
        assert((a + seq![sep] + b).drop_last() =~= a + seq![sep] + b1);
        assert((a + seq![sep] + b).last() == b.last());
        assert(b.last() != sep) by {
            assert(b[b.len() - 1] == b.last());
        }
        assert(b1.push(b.last()) =~= b);
        let whole = a + seq![sep] + b;
        let parts = split_on(whole.drop_last(), sep);
        assert(parts == split_on(a, sep).push(b1));
        assert(split_on(whole, sep) == parts.update(parts.len() - 1, parts.last().push(b.last())));
        let u = parts.update(parts.len() - 1, b1.push(b.last()));
        assert(u =~= split_on(a, sep).push(b));
    }
}

/// Splitting pieces that were joined by a separator they do not hold gives back the
/// pieces.
pub proof fn lemma_split_join(parts: Seq<Seq<char>>, sep: char)
    requires
        parts.len() >= 1,
        forall|i: int| 0 <= i < parts.len() ==> !(#[trigger] parts[i]).contains(sep),
    ensures
        split_on(join(parts, seq![sep]), sep) == parts,
    decreases parts.len(),
{
    if parts.len() == 1 {
        lemma_split_free(parts[0], sep);
        assert(split_on(join(parts, seq![sep]), sep) =~= parts);
    } else {
        let init = parts.drop_last();
        assert forall|i: int| 0 <= i < init.len() implies !(#[trigger] init[i]).contains(sep) by {
            assert(init[i] == parts[i]);
        }
        lemma_split_join(init, sep);
        assert(!parts.last().contains(sep)) by {
            assert(parts[parts.len() - 1] == parts.last());
        }
        lemma_split_after_separator(join(init, seq![sep]), parts.last(), sep);
        assert(init.push(parts.last()) =~= parts);
    }
}

proof fn lemma_infix_around_separator(a: Seq<char>, b: Seq<char>, sep: char, p: Seq<char>)
    requires
        !p.contains(sep),
    ensures
        has_infix(a + seq![sep] + b, p) <==> (has_infix(a, p) || has_infix(b, p)),
{
    let whole = a + seq![sep] + b;
    if has_infix(a, p) {
        let i = choose|i: int| 0 <= i && i + p.len() <= a.len() && #[trigger] a.subrange(i, i + p.len()) == p;
        assert(whole.subrange(i, i + p.len()) =~= a.subrange(i, i + p.len()));
    }
    if has_infix(b, p) {
        let j = choose|j: int| 0 <= j && j + p.len() <= b.len() && #[trigger] b.subrange(j, j + p.len()) == p;
        let i = a.len() + 1 + j;
        assert(whole.subrange(i, i + p.len()) =~= b.subrange(j, j + p.len()));
    }
    if has_infix(whole, p) {
        let i = choose|i: int| 0 <= i && i + p.len() <= whole.len() && #[trigger] whole.subrange(i, i + p.len()) == p;
        if i + p.len() <= a.len() {
            assert(a.subrange(i, i + p.len()) =~= whole.subrange(i, i + p.len()));
        } else if i >= a.len() + 1 {
            let j = i - a.len() - 1;
            assert(b.subrange(j, j + p.len()) =~= whole.subrange(i, i + p.len()));
        } else {
            let k = a.len() - i;
            assert(whole.subrange(i, i + p.len())[k] == whole[a.len() as int]);
            assert(p[k] == sep);
            assert(false);
        }
    }
}

/// A pattern free of the separator occurs in pieces joined by the separator exactly
/// when it occurs in one of the pieces.
pub proof fn lemma_infix_in_join(parts: Seq<Seq<char>>, sep: char, p: Seq<char>)
    requires
        parts.len() >= 1,
        !p.contains(sep),
    ensures
        has_infix(join(parts, seq![sep]), p) <==> exists|k: int|
            0 <= k < parts.len() && has_infix(#[trigger] parts[k], p),
    decreases parts.len(),
{
    if parts.len() == 1 {
        if has_infix(parts[0], p) {
            assert(0 <= 0 < parts.len() && has_infix(parts[0], p));
        }
    } else {
        let init = parts.drop_last();
        lemma_infix_in_join(init, sep, p);
        lemma_infix_around_separator(join(init, seq![sep]), parts.last(), sep, p);
        if exists|k: int| 0 <= k < parts.len() && has_infix(#[trigger] parts[k], p) {
            let k = choose|k: int| 0 <= k < parts.len() && has_infix(#[trigger] parts[k], p);
            if k < init.len() {
                assert(init[k] == parts[k]);
            } else {
                assert(parts[k] == parts.last());
            }
        }
        if has_infix(join(init, seq![sep]), p) {
            let k = choose|k: int| 0 <= k < init.len() && has_infix(#[trigger] init[k], p);
            assert(parts[k] == init[k]);
        }
        if has_infix(parts.last(), p) {
            assert(parts[parts.len() - 1] == parts.last());
        }
    }
}

// ---------------------------------------------------------------------------
// Trimming and replacing around a scheme separator.
// ---------------------------------------------------------------------------
/// No two consecutive slashes occur in `s`.
pub open spec fn no_double_slash(s: Seq<char>) -> bool {
    forall|j: int, k: int|
        #![trigger s[j], s[k]]
        0 <= j && k == j + 1 && k < s.len() ==> !(s[j] == '/' && s[k] == '/')
}

/// Leading white space of joined text is that of the first part, or, when the
/// first part is all white space, that of the second.
pub proof fn lemma_trim_start_concat(a: Seq<char>, b: Seq<char>)
    ensures
        trim_start(a + b) == (if trim_start(a).len() > 0 {
            trim_start(a) + b
        } else {
            trim_start(b)
        }),
    decreases a.len(),
{
    if a.len() == 0 {
        assert(a + b =~= b);
    } else {
        assert((a + b)[0] == a[0]);
        if is_white_space(a[0]) {
            assert((a + b).drop_first() =~= a.drop_first() + b);
            lemma_trim_start_concat(a.drop_first(), b);
        }
    }
}

/// Trailing white space of joined text is that of the second part, or, when the
/// second part is all white space, that of the first.
pub proof fn lemma_trim_end_concat(a: Seq<char>, b: Seq<char>)
    ensures
        trim_end(a + b) == (if trim_end(b).len() > 0 {
            a + trim_end(b)
        } else {
            trim_end(a)
        }),
    decreases b.len(),
{
    if b.len() == 0 {
        assert(a + b =~= a);
    } else {
        assert((a + b).last() == b.last());
        if is_white_space(b.last()) {
            assert((a + b).drop_last() =~= a + b.drop_last());
            lemma_trim_end_concat(a, b.drop_last());
        }
    }
}

proof fn lemma_trim_start_keeps_last(s: Seq<char>)
    requires
        s.len() > 0,
        !is_white_space(s.last()),
    ensures
        trim_start(s).len() > 0,
        trim_start(s).last() == s.last(),
    decreases s.len(),
{
    if is_white_space(s[0]) {
        assert(s.len() > 1) by {
            if s.len() == 1 {
                assert(s[0] == s.last());
            }
        }
        assert(s.drop_first().last() == s.last());
        lemma_trim_start_keeps_last(s.drop_first());
    }
}

proof fn lemma_no_double_slash_drop_first(s: Seq<char>)
    requires
        no_double_slash(s),
        s.len() > 0,
    ensures
        no_double_slash(s.drop_first()),
{
    let t = s.drop_first();
    assert forall|j: int, k: int| 0 <= j && k == j + 1 && k < t.len() implies !(#[trigger] t[j]
        == '/' && #[trigger] t[k] == '/') by {
        assert(t[j] == s[j + 1] && t[k] == s[k + 1]);
    }
}

proof fn lemma_no_double_slash_drop_last(s: Seq<char>)
    requires
        no_double_slash(s),
        s.len() > 0,
    ensures
        no_double_slash(s.drop_last()),
{
    let t = s.drop_last();
    assert forall|j: int, k: int| 0 <= j && k == j + 1 && k < t.len() implies !(#[trigger] t[j]
        == '/' && #[trigger] t[k] == '/') by {
        assert(t[j] == s[j] && t[k] == s[k]);
    }
}

proof fn lemma_trim_start_no_double_slash(s: Seq<char>)
    requires
        no_double_slash(s),
    ensures
        no_double_slash(trim_start(s)),
    decreases s.len(),
{
    if s.len() > 0 && is_white_space(s[0]) {
        lemma_no_double_slash_drop_first(s);
        lemma_trim_start_no_double_slash(s.drop_first());
    }
}

proof fn lemma_trim_end_no_double_slash(s: Seq<char>)
    requires
        no_double_slash(s),
    ensures
        no_double_slash(trim_end(s)),
    decreases s.len(),
{
    if s.len() > 0 && is_white_space(s.last()) {
        lemma_no_double_slash_drop_last(s);
        lemma_trim_end_no_double_slash(s.drop_last());
    }
}

proof fn lemma_replace_free_of_double_slash(y: Seq<char>)
    requires
        no_double_slash(y),
    ensures
        replace_all(y, seq!['/', '/'], Seq::<char>::empty()) == y,
    decreases y.len(),
{
    if y.len() > 0 {
        assert(!has_prefix(y, seq!['/', '/'])) by {
            if y.len() >= 2 && y.subrange(0, 2) == seq!['/', '/'] {
                assert(y.subrange(0, 2)[0] == y[0] && y.subrange(0, 2)[1] == y[1]);
                assert(!(y[0] == '/' && y[1] == '/'));
            }
        }
        lemma_no_double_slash_drop_first(y);
        assert(y.skip(1) =~= y.drop_first());
        lemma_replace_free_of_double_slash(y.skip(1));
        assert(seq![y[0]] + y.skip(1) =~= y);
    }
}

proof fn lemma_replace_one_double_slash(x: Seq<char>, y: Seq<char>)
    requires
        no_double_slash(x),
        x.len() == 0 || x.last() != '/',
    ensures
        replace_all(x + seq!['/', '/'] + y, seq!['/', '/'], Seq::<char>::empty()) == x
            + replace_all(y, seq!['/', '/'], Seq::<char>::empty()),
    decreases x.len(),
{
    let dd = seq!['/', '/'];
    let s = x + dd + y;
    if x.len() == 0 {
        assert(s =~= dd + y);
        assert(s.subrange(0, 2) =~= dd);
        assert(s.skip(2) =~= y);
        assert(x + replace_all(y, dd, Seq::<char>::empty()) =~= replace_all(
            y,
            dd,
            Seq::<char>::empty(),
        ));
    } else {
        assert(!has_prefix(s, dd)) by {
            if s.subrange(0, 2) == dd {
                assert(s.subrange(0, 2)[0] == s[0] && s.subrange(0, 2)[1] == s[1]);
                assert(s[0] == x[0]);
                if x.len() >= 2 {
                    assert(s[1] == x[1]);
                    assert(!(x[0] == '/' && x[1] == '/'));
                } else {
                    assert(x[0] == x.last());
                }
            }
        }
        lemma_no_double_slash_drop_first(x);
        let rest = x.drop_first();
        if rest.len() > 0 {
            assert(rest.last() == x.last());
        }
        lemma_replace_one_double_slash(rest, y);
        assert(s.skip(1) =~= rest + dd + y);
        assert(s[0] == x[0]);
        assert(seq![x[0]] + (rest + replace_all(y, dd, Seq::<char>::empty())) =~= x + replace_all(
            y,
            dd,
            Seq::<char>::empty(),
        ));
    }
}

proof fn lemma_replace_first_scheme(u: Seq<char>, v: Seq<char>)
    requires
        no_double_slash(u),
    ensures
        replace_first(u + seq![':', '/', '/'] + v, seq![':', '/', '/'], seq![':']) == u + seq![':']
            + v,
    decreases u.len(),
{
    let sch = seq![':', '/', '/'];
    let s = u + sch + v;
    if u.len() == 0 {
        assert(s =~= sch + v);
        assert(s.subrange(0, 3) =~= sch);
        assert(s.skip(3) =~= v);
        assert(seq![':'] + v =~= u + seq![':'] + v);
    } else {
        assert(!has_prefix(s, sch)) by {
            if s.len() >= 3 && s.subrange(0, 3) == sch {
                assert(s.subrange(0, 3)[1] == s[1] && s.subrange(0, 3)[2] == s[2]);
                if u.len() >= 3 {
                    assert(s[1] == u[1] && s[2] == u[2]);
                    assert(!(u[1] == '/' && u[2] == '/'));
                } else if u.len() == 2 {
                    assert(s[2] == ':');
                } else {
                    assert(s[1] == ':');
                }
            }
        }
        lemma_no_double_slash_drop_first(u);
        lemma_replace_first_scheme(u.drop_first(), v);
        assert(s.skip(1) =~= u.drop_first() + sch + v);
        assert(s[0] == u[0]);
        assert(seq![u[0]] + (u.drop_first() + seq![':'] + v) =~= u + seq![':'] + v);
    }
}

proof fn lemma_replace_first_without_scheme(l: Seq<char>)
    requires
        no_double_slash(l),
    ensures
        replace_first(l, seq![':', '/', '/'], seq![':']) == l,
    decreases l.len(),
{
    let sch = seq![':', '/', '/'];
    if l.len() > 0 {
        assert(!has_prefix(l, sch)) by {
            if l.len() >= 3 && l.subrange(0, 3) == sch {
                assert(l.subrange(0, 3)[1] == l[1] && l.subrange(0, 3)[2] == l[2]);
                assert(!(l[1] == '/' && l[2] == '/'));
            }
        }
        lemma_no_double_slash_drop_first(l);
        assert(l.skip(1) =~= l.drop_first());
        lemma_replace_first_without_scheme(l.skip(1));
        assert(seq![l[0]] + l.skip(1) =~= l);
    }
}

/// A line whose only slashes in a row are those of one `://`: either it holds no
/// two slashes in a row, or it is `u://v` with none in `u` and none in `v`.
pub open spec fn single_scheme(l: Seq<char>) -> bool {
    ||| no_double_slash(l)
    ||| exists|u: Seq<char>, v: Seq<char>|
        #![trigger no_double_slash(u), no_double_slash(v)]
        l == u + seq![':', '/', '/'] + v && no_double_slash(u) && no_double_slash(v)
}

/// For a line with at most one `://` and no other slashes in a row, trimming and
/// then deleting `//` gives what turning the first `://` into `:` and then
/// trimming gives.
pub proof fn lemma_scheme_removal_commutes_with_trim(l: Seq<char>)
    requires
        single_scheme(l),
    ensures
        replace_all(trim(l), seq!['/', '/'], Seq::<char>::empty()) == trim(
            replace_first(l, seq![':', '/', '/'], seq![':']),
        ),
{
    let dd = seq!['/', '/'];
    let e = Seq::<char>::empty();
    if no_double_slash(l) {
        lemma_replace_first_without_scheme(l);
        lemma_trim_start_no_double_slash(l);
        lemma_trim_end_no_double_slash(trim_start(l));
        lemma_replace_free_of_double_slash(trim(l));
    } else {
        let (u, v) = choose|u: Seq<char>, v: Seq<char>|
            #![trigger no_double_slash(u), no_double_slash(v)]
            l == u + seq![':', '/', '/'] + v && no_double_slash(u) && no_double_slash(v);
        lemma_replace_first_scheme(u, v);
        let a = u.push(':');
        assert(no_double_slash(a)) by {
            assert forall|j: int, k: int| 0 <= j && k == j + 1 && k < a.len() implies !(
            #[trigger] a[j] == '/' && #[trigger] a[k] == '/') by {
                if k < u.len() {
                    assert(a[j] == u[j] && a[k] == u[k]);
                }
            }
        }
        assert(a.last() == ':');
        assert(!is_white_space(':'));
        lemma_trim_start_keeps_last(a);
        let ts = trim_start(a);
        let te = trim_end(v);
        assert(trim_end(ts) == ts);
        // The line with its scheme shortened.
        assert(u + seq![':'] + v =~= a + v);
        lemma_trim_start_concat(a, v);
        lemma_trim_end_concat(ts, v);
        if te.len() == 0 {
            assert(ts + te =~= ts);
        }
        assert(trim(u + seq![':'] + v) == ts + te);
        // The line as it is.
        assert(l =~= a + (dd + v));
        lemma_trim_start_concat(a, dd + v);
        lemma_trim_end_concat(dd, v);
        assert(trim_end(dd) == dd) by {
            assert(dd.last() == '/');
        }
        if te.len() == 0 {
            assert(dd + te =~= dd);
        }
        assert(trim_end(dd + v) == dd + te);
        lemma_trim_end_concat(ts, dd + v);
        assert(trim(l) == ts + (dd + te));
        assert(ts + (dd + te) =~= ts + dd + te);
        lemma_trim_start_no_double_slash(a);
        lemma_trim_end_no_double_slash(v);
        lemma_replace_one_double_slash(ts, te);
        lemma_replace_free_of_double_slash(te);
    }
}

/// Replacing one character by another everywhere changes that character and
/// nothing else.
pub proof fn lemma_replace_char_maps(x: Seq<char>, c: char, d: char)
    ensures
        replace_all(x, seq![c], seq![d]) == x.map_values(|ch: char| if ch == c { d } else { ch }),
    decreases x.len(),
{
    if x.len() > 0 {
        assert(has_prefix(x, seq![c]) <==> x[0] == c) by {
            assert(x.subrange(0, 1)[0] == x[0]);
            if x[0] == c {
                assert(x.subrange(0, 1) =~= seq![c]);
            }
        }
        lemma_replace_char_maps(x.skip(1), c, d);
        assert(x.map_values(|ch: char| if ch == c { d } else { ch }) =~= seq![
            if x[0] == c { d } else { x[0] },
        ] + x.skip(1).map_values(|ch: char| if ch == c { d } else { ch }));
        if x[0] == c {
            assert(seq![d] + replace_all(x.skip(1), seq![c], seq![d]) =~= seq![
                if x[0] == c { d } else { x[0] },
            ] + replace_all(x.skip(1), seq![c], seq![d]));
        }
    } else {
        assert(x.map_values(|ch: char| if ch == c { d } else { ch }) =~= x);
    }
}

proof fn lemma_split_mapped_separators(x: Seq<char>)
    ensures
        split_on(
            x.map_values(|ch: char| if ch == '#' || ch == '@' { ':' } else { ch }),
            ':',
        ) == split_on_any(x, seq!['#', ':', '@']),
    decreases x.len(),
{
    let y = x.map_values(|ch: char| if ch == '#' || ch == '@' { ':' } else { ch });
    if x.len() == 0 {
        assert(y.len() == 0);
    } else {
        lemma_split_mapped_separators(x.drop_last());
        assert(y.drop_last() =~= x.drop_last().map_values(
            |ch: char| if ch == '#' || ch == '@' { ':' } else { ch },
        ));
        assert(y.last() == (if x.last() == '#' || x.last() == '@' { ':' } else { x.last() }));
        let seps = seq!['#', ':', '@'];
        assert(seps.contains(x.last()) <==> (x.last() == '#' || x.last() == ':' || x.last() == '@'))
            by {
            if x.last() == '#' {
                assert(seps[0] == '#');
            }
            if x.last() == ':' {
                assert(seps[1] == ':');
            }
            if x.last() == '@' {
                assert(seps[2] == '@');
            }
        }
    }
}

/// Turning `@` and `#` into `:` and splitting at `:` splits at every `#`, `:` and `@`.
pub proof fn lemma_split_after_separator_replacement(x: Seq<char>)
    ensures
        split_on(replace_all(replace_all(x, seq!['@'], seq![':']), seq!['#'], seq![':']), ':')
            == split_on_any(x, seq!['#', ':', '@']),
{
    lemma_replace_char_maps(x, '@', ':');
    let x1 = x.map_values(|ch: char| if ch == '@' { ':' } else { ch });
    lemma_replace_char_maps(x1, '#', ':');
    assert(x1.map_values(|ch: char| if ch == '#' { ':' } else { ch }) =~= x.map_values(
        |ch: char| if ch == '#' || ch == '@' { ':' } else { ch },
    ));
    lemma_split_mapped_separators(x);
}

// ---------------------------------------------------------------------------
// How lines are cut.
// ---------------------------------------------------------------------------
/// Splitting text joined at a separator splits each side on its own.
pub proof fn lemma_split_concat(a: Seq<char>, b: Seq<char>, sep: char)
    ensures
        split_on(a + seq![sep] + b, sep) == split_on(a, sep) + split_on(b, sep),
    decreases b.len(),
{
    let w = a + seq![sep] + b;
    if b.len() == 0 {
        assert(w.drop_last() =~= a);
        assert(w.last() == sep);
        assert(split_on(a, sep).push(Seq::<char>::empty()) =~= split_on(a, sep) + split_on(b, sep));
    } else {
        assert(w.drop_last() =~= a + seq![sep] + b.drop_last());
        assert(w.last() == b.last());
        lemma_split_concat(a, b.drop_last(), sep);
        lemma_split_not_empty(b.drop_last(), sep);
        let p = split_on(a, sep);
        let q = split_on(b.drop_last(), sep);
        if b.last() == sep {
            assert((p + q).push(Seq::<char>::empty()) =~= p + q.push(Seq::<char>::empty()));
        } else {
            assert((p + q).last() == q.last());
            assert((p + q).update((p + q).len() - 1, q.last().push(b.last())) =~= p + q.update(
                q.len() - 1,
                q.last().push(b.last()),
            ));
        }
    }
}

/// The lines of text that ends in a newline are its newline-separated pieces, each
/// without a carriage return at its end.
pub proof fn lemma_lines_terminated(a: Seq<char>)
    ensures
        lines(a + seq!['\n']) == split_on(a, '\n').map_values(|l: Seq<char>| strip_carriage_return(l)),
{
    lemma_split_concat(a, Seq::<char>::empty(), '\n');
    assert(a + seq!['\n'] + Seq::<char>::empty() =~= a + seq!['\n']);
    let parts = split_on(a, '\n') + split_on(Seq::<char>::empty(), '\n');
    assert(parts.drop_last() =~= split_on(a, '\n'));
}

/// The lines of two texts joined by a newline are the lines of the first, ended by
/// that newline, followed by the lines of the second: every line is kept, the last
/// one whether or not a newline ends it.
pub proof fn lemma_lines_concat(a: Seq<char>, b: Seq<char>)
    ensures
        lines(a + seq!['\n'] + b) == lines(a + seq!['\n']) + lines(b),
{
    lemma_split_concat(a, b, '\n');
    lemma_lines_terminated(a);
    lemma_split_not_empty(b, '\n');
    let p = split_on(a, '\n');
    let q = split_on(b, '\n');
    let parts = p + q;
    assert(parts.last() == q.last());
    assert(parts.drop_last() =~= p + q.drop_last());
    assert((p + q.drop_last()).map_values(|l: Seq<char>| strip_carriage_return(l)) =~= p.map_values(
        |l: Seq<char>| strip_carriage_return(l),
    ) + q.drop_last().map_values(|l: Seq<char>| strip_carriage_return(l)));
    if q.last().len() == 0 {
        assert(lines(a + seq!['\n'] + b) =~= lines(a + seq!['\n']) + lines(b));
    } else {
        assert(lines(a + seq!['\n'] + b) =~= lines(a + seq!['\n']) + lines(b));
    }
}

/// A piece of text without a newline is one line (none when it is empty), and with
/// a newline after it, one line without a carriage return at its end.
pub proof fn lemma_lines_single(l: Seq<char>)
    requires
        !l.contains('\n'),
    ensures
        lines(l) == (if l.len() == 0 {
            Seq::<Seq<char>>::empty()
        } else {
            seq![l]
        }),
        lines(l + seq!['\n']) == seq![strip_carriage_return(l)],
{
    lemma_split_free(l, '\n');
    lemma_lines_terminated(l);
    let parts = split_on(l, '\n');
    assert(parts.drop_last() =~= Seq::<Seq<char>>::empty());
    assert(parts.last() == l);
    if l.len() == 0 {
        assert(lines(l) =~= Seq::<Seq<char>>::empty());
    } else {
        assert(lines(l) =~= seq![l]);
    }
    assert(seq![l].map_values(|x: Seq<char>| strip_carriage_return(x)) =~= seq![
        strip_carriage_return(l),
    ]);
}

proof fn lemma_join_front(parts: Seq<Seq<char>>, sep: Seq<char>)
    requires
        parts.len() >= 2,
    ensures
        join(parts, sep) == parts[0] + sep + join(parts.drop_first(), sep),
    decreases parts.len(),
{
    if parts.len() == 2 {
        assert(parts.drop_last() =~= seq![parts[0]]);
        assert(parts.drop_first() =~= seq![parts[1]]);
        assert(join(seq![parts[0]], sep) == parts[0]);
        assert(join(seq![parts[1]], sep) == parts[1]);
    } else {
        let init = parts.drop_last();
        lemma_join_front(init, sep);
        assert(init.drop_first() =~= parts.drop_first().drop_last());
        assert(parts.drop_first().last() == parts.last());
        assert(init[0] == parts[0]);
    }
}

/// Splitting at a separator gives at least two pieces exactly when the text holds
/// the separator; then the text starts with the first piece, the separator and the
/// second piece, followed by the separator again if anything follows.
pub proof fn lemma_split_first_two_pieces(s: Seq<char>, sep: char)
    ensures
        split_on(s, sep).len() >= 2 <==> s.contains(sep),
        split_on(s, sep).len() >= 2 ==> {
            let parts = split_on(s, sep);
            let head = parts[0] + seq![sep] + parts[1];
            &&& has_prefix(s, head)
            &&& (s.len() > head.len() ==> s[head.len() as int] == sep)
        },
{
    let parts = split_on(s, sep);
    lemma_join_split(s, sep);
    lemma_split_not_empty(s, sep);
    lemma_split_pieces_free_of_separator(s, sep);
    if parts.len() == 1 {
        assert(join(parts, seq![sep]) == parts[0]);
        assert(!parts[0].contains(sep));
    } else {
        lemma_join_front(parts, seq![sep]);
        let rest = parts.drop_first();
        assert(rest[0] == parts[1]);
        let head = parts[0] + seq![sep] + parts[1];
        if rest.len() == 1 {
            assert(join(rest, seq![sep]) == parts[1]);
            assert(s =~= head);
        } else {
            lemma_join_front(rest, seq![sep]);
            let tail = join(rest.drop_first(), seq![sep]);
            assert(s =~= head + (seq![sep] + tail));
            assert(s[head.len() as int] == sep);
        }
        assert(s.subrange(0, head.len() as int) =~= head);
        assert(s[parts[0].len() as int] == sep);
    }
}

} // verus!
