//! The query shape that can be batched: `metric{asset="TAG", other="..."}`.

use crate::model::{group_models, views};
use crate::text::{cat3, chars_of, from_chars, part, text_of, trim, trimmed};
use vstd::prelude::*;
use vstd::string::*;

verus! {

/// The first place of a character in a text.
pub open spec fn first_of(s: Seq<char>, c: char) -> Option<int>
    decreases s.len(),
{
    if s.len() == 0 {
        None
    } else if s[0] == c {
        Some(0)
    } else {
        match first_of(s.drop_first(), c) {
            Some(i) => Some(i + 1),
            None => None,
        }
    }
}

/// A place that lies `n` further on.
pub open spec fn shifted(at: Option<int>, n: int) -> Option<int> {
    match at {
        Some(i) => Some(i + n),
        None => None,
    }
}

/// The first place of a character outside double quotes. `inside` tells whether the
/// text starts within quotes; there a backslash takes the next character along.
pub open spec fn first_outside(s: Seq<char>, c: char, inside: bool) -> Option<int>
    decreases s.len(),
{
    if s.len() == 0 {
        None
    } else if inside {
        if s[0] == '\\' && s.len() > 1 {
            shifted(first_outside(s.skip(2), c, true), 2)
        } else {
            shifted(first_outside(s.drop_first(), c, s[0] != '"'), 1)
        }
    } else if s[0] == c {
        Some(0)
    } else {
        shifted(first_outside(s.drop_first(), c, s[0] == '"'), 1)
    }
}

/// The text between the first two double quotes.
pub open spec fn quoted(s: Seq<char>) -> Option<Seq<char>> {
    match first_of(s, '"') {
        None => None,
        Some(a) => {
            let rest = s.skip(a + 1);
            match first_of(rest, '"') {
                None => None,
                Some(b) => Some(rest.take(b)),
            }
        },
    }
}

/// The labels of a query: the asset, and the others as they stand.
pub struct Labels {
    pub asset: Option<Seq<char>>,
    pub others: Seq<Seq<char>>,
}

/// Where the operator of a label matcher (`=`, `!=`, `=~`, `!~`) starts, or the
/// end of one that has none.
pub open spec fn operator_at(label: Seq<char>) -> int
    decreases label.len(),
{
    if label.len() == 0 || label[0] == '=' || label[0] == '!' || label[0] == '~' {
        0
    } else {
        1 + operator_at(label.drop_first())
    }
}

/// The name of a label matcher: what stands in front of its operator.
pub open spec fn label_name(label: Seq<char>) -> Seq<char> {
    trimmed(label.take(operator_at(label)))
}

/// What a matcher `="TAG"` (the name left out) asks for: the tag. Another operator
/// (`!=`, `=~`, `!~`) asks for something else than the one asset.
pub open spec fn matched_tag(matcher: Seq<char>) -> Option<Seq<char>> {
    if matcher.len() == 0 || matcher[0] != '=' {
        None
    } else {
        let value = trimmed(matcher.skip(1));
        match quoted(value) {
            Some(tag) if value.len() == tag.len() + 2 => Some(tag),
            _ => None,
        }
    }
}

/// The labels with one more. The one named `asset` stands there once and carries
/// the asset in quotes; otherwise the query has another shape.
pub open spec fn with_label(l: Labels, label: Seq<char>) -> Option<Labels> {
    if label.len() == 0 {
        Some(l)
    } else if label_name(label) == "asset"@ {
        match matched_tag(label.skip(operator_at(label))) {
            Some(asset) if l.asset is None => Some(Labels { asset: Some(asset), ..l }),
            _ => None,
        }
    } else {
        Some(Labels { others: l.others.push(label), ..l })
    }
}

/// The labels of a list that commas separate. A comma in quotes belongs to its label.
pub open spec fn labels_of(l: Labels, list: Seq<char>) -> Option<Labels>
    decreases list.len(),
    via labels_of_shrinks
{
    match first_outside(list, ',', false) {
        Some(i) => match with_label(l, trimmed(list.take(i))) {
            Some(l1) => labels_of(l1, list.skip(i + 1)),
            None => None,
        },
        None => with_label(l, trimmed(list)),
    }
}

/// A brace stands outside double quotes.
pub open spec fn has_braces(s: Seq<char>) -> bool {
    first_outside(s, '{', false) is Some || first_outside(s, '}', false) is Some
}

pub struct ParsedQueryView {
    pub metric: Seq<char>,
    pub asset: Seq<char>,
    pub others: Seq<Seq<char>>,
}

/// A query of the shape `metric{asset="TAG"[, other="..."]}`, taken apart; `None`
/// for any other.
pub open spec fn parse_of(query: Seq<char>) -> Option<ParsedQueryView> {
    let q = trimmed(query);
    match first_of(q, '{') {
        Some(open) => {
            let metric = trimmed(q.take(open));
            let inner = q.subrange(open + 1, q.len() - 1);
            if q.last() != '}' || metric.len() == 0 || has_braces(inner) {
                None
            } else {
                match labels_of(Labels { asset: None, others: Seq::empty() }, inner) {
                    Some(l) => match l.asset {
                        Some(asset) => Some(ParsedQueryView { metric, asset, others: l.others }),
                        None => None,
                    },
                    None => None,
                }
            }
        },
        None => None,
    }
}

/// A query taken apart for batching.
#[derive(Debug, Clone, PartialEq)]
pub struct ParsedQuery {
    pub metric: String,
    pub asset: String,
    /// The label matchers other than the asset, as they stand.
    pub others: Vec<String>,
}

impl View for ParsedQuery {
    type V = ParsedQueryView;

    open spec fn view(&self) -> ParsedQueryView {
        ParsedQueryView { metric: self.metric@, asset: self.asset@, others: views(self.others@) }
    }
}

pub proof fn lemma_first_of(s: Seq<char>, c: char)
    ensures
        match first_of(s, c) {
            Some(i) => 0 <= i < s.len() && s[i] == c,
            None => true,
        },
    decreases s.len(),
{
    if s.len() > 0 && s[0] != c {
        lemma_first_of(s.drop_first(), c);
    }
}

proof fn lemma_first_outside(s: Seq<char>, c: char, inside: bool)
    ensures
        match first_outside(s, c, inside) {
            Some(i) => 0 <= i < s.len() && s[i] == c,
            None => true,
        },
    decreases s.len(),
{
    if s.len() > 0 {
        if inside && s[0] == '\\' && s.len() > 1 {
            lemma_first_outside(s.skip(2), c, true);
        } else if inside {
            lemma_first_outside(s.drop_first(), c, s[0] != '"');
        } else if s[0] != c {
            lemma_first_outside(s.drop_first(), c, s[0] == '"');
        }
    }
}

#[via_fn]
proof fn labels_of_shrinks(l: Labels, list: Seq<char>) {
    lemma_first_outside(list, ',', false);
}

/// The first place of a character outside double quotes.
fn find_outside(s: &[char], c: char) -> (r: Option<usize>)
    ensures
        match r {
            Some(i) => first_outside(s@, c, false) == Some(i as int) && i < s@.len(),
            None => first_outside(s@, c, false) is None,
        },
{
    let mut i: usize = 0;
    let mut inside = false;
    proof {
        assert(s@.skip(0) =~= s@);
    }
    while i < s.len()
        invariant
            i <= s@.len(),
            first_outside(s@, c, false) == shifted(
                first_outside(s@.skip(i as int), c, inside),
                i as int,
            ),
        decreases s@.len() - i,
    {
        proof {
            assert(s@.skip(i as int)[0] == s@[i as int]);
            assert(s@.skip(i as int).drop_first() =~= s@.skip(i + 1));
        }
        if !inside && s[i] == c {
            return Some(i);
        }
        if inside && s[i] == '\\' && s.len() - i > 1 {
            proof {
                assert(s@.skip(i as int).skip(2) =~= s@.skip(i + 2));
            }
            i = i + 2;
        } else {
            if s[i] == '"' {
                inside = !inside;
            }
            i = i + 1;
        }
    }
    None
}

/// The first place of a character in a text.
pub fn find_first(s: &[char], c: char) -> (r: Option<usize>)
    ensures
        match r {
            Some(i) => first_of(s@, c) == Some(i as int) && i < s@.len() && s@[i as int] == c,
            None => first_of(s@, c) is None,
        },
{
    let mut i: usize = 0;
    proof {
        assert(s@.skip(0) =~= s@);
    }
    while i < s.len()
        invariant
            i <= s@.len(),
            first_of(s@, c) == match first_of(s@.skip(i as int), c) {
                Some(k) => Some(k + i),
                None => None,
            },
        decreases s@.len() - i,
    {
        proof {
            assert(s@.skip(i as int)[0] == s@[i as int]);
            assert(s@.skip(i as int).drop_first() =~= s@.skip(i + 1));
        }
        if s[i] == c {
            return Some(i);
        }
        i = i + 1;
    }
    None
}

/// The text between the first two double quotes.
fn quoted_part(s: &[char]) -> (r: Option<String>)
    ensures
        match r {
            Some(t) => quoted(s@) == Some(t@),
            None => quoted(s@) is None,
        },
{
    let a: usize = match find_first(s, '"') {
        Some(a) => a,
        None => return None,
    };
    let n: usize = s.len();
    let rest = part(s, a + 1, n);
    proof {
        assert(rest@ =~= s@.skip(a + 1));
    }
    let b: usize = match find_first(&rest, '"') {
        Some(b) => b,
        None => return None,
    };
    proof {
        assert(rest@.subrange(0, b as int) =~= rest@.take(b as int));
    }
    Some(from_chars(&rest, 0, b))
}

/// The text between the first two double quotes.
pub fn extract_quoted(s: &str) -> (r: Option<String>)
    ensures
        match r {
            Some(t) => quoted(s@) == Some(t@),
            None => quoted(s@) is None,
        },
{
    let chars = chars_of(s);
    quoted_part(&chars)
}

/// Where the operator of a label matcher starts.
fn find_operator(s: &[char]) -> (i: usize)
    ensures
        i == operator_at(s@),
        i <= s@.len(),
{
    let mut i: usize = 0;
    proof {
        assert(s@.skip(0) =~= s@);
    }
    while i < s.len() && s[i] != '=' && s[i] != '!' && s[i] != '~'
        invariant
            i <= s@.len(),
            operator_at(s@) == i + operator_at(s@.skip(i as int)),
        decreases s@.len() - i,
    {
        proof {
            assert(s@.skip(i as int)[0] == s@[i as int]);
            assert(s@.skip(i as int).drop_first() =~= s@.skip(i + 1));
        }
        i = i + 1;
    }
    proof {
        assert(i < s@.len() ==> s@.skip(i as int)[0] == s@[i as int]);
    }
    i
}

/// What a matcher `="TAG"` (the name left out) asks for.
fn tag_of_matcher(s: &[char]) -> (r: Option<String>)
    ensures
        match r {
            Some(t) => matched_tag(s@) == Some(t@),
            None => matched_tag(s@) is None,
        },
{
    if s.len() == 0 || s[0] != '=' {
        return None;
    }
    let tail = part(s, 1, s.len());
    proof {
        assert(tail@ =~= s@.skip(1));
    }
    let value = trim(&tail);
    match quoted_part(&value) {
        Some(t) => {
            let n: usize = t.as_str().unicode_len();
            if value.len() >= 2 && value.len() - 2 == n {
                Some(t)
            } else {
                None
            }
        },
        None => None,
    }
}

/// Is a text the word `asset`?
fn is_asset(s: &[char]) -> (b: bool)
    ensures
        b == (s@ == "asset"@),
{
    proof {
        reveal_strlit("asset");
    }
    let b = s.len() == 5 && s[0] == 'a' && s[1] == 's' && s[2] == 's' && s[3] == 'e' && s[4]
        == 't';
    proof {
        if b {
            assert(s@ =~= "asset"@);
        }
    }
    b
}

spec fn labels_view(asset: Option<String>, others: Seq<String>) -> Labels {
    Labels { asset: crate::model::opt_view(asset), others: views(others) }
}

/// Takes one more label in; `false` where the query has another shape.
fn take_label(label: &[char], asset: &mut Option<String>, others: &mut Vec<String>) -> (ok: bool)
    ensures
        match with_label(labels_view(*old(asset), old(others)@), label@) {
            Some(l) => ok && labels_view(*final(asset), final(others)@) == l,
            None => !ok,
        },
{
    broadcast use group_models;

    if label.len() == 0 {
        return true;
    }
    let at: usize = find_operator(label);
    let head = part(label, 0, at);
    proof {
        assert(head@ =~= label@.take(at as int));
    }
    if is_asset(&trim(&head)) {
        let rest = part(label, at, label.len());
        proof {
            assert(rest@ =~= label@.skip(at as int));
        }
        match tag_of_matcher(&rest) {
            Some(a) => {
                if asset.is_some() {
                    return false;
                }
                *asset = Some(a);
                true
            },
            None => false,
        }
    } else {
        others.push(text_of(label));
        true
    }
}

/// Takes a query of the shape `metric{asset="TAG"[, other="..."]}` apart; `None`
/// for any other, which is then issued on its own.
pub fn parse_query(query: &str) -> (r: Option<ParsedQuery>)
    ensures
        match r {
            Some(p) => parse_of(query@) == Some(p@),
            None => parse_of(query@) is None,
        },
{
    let all = chars_of(query);
    let q = trim(&all);
    let open: usize = match find_first(&q, '{') {
        Some(i) => i,
        None => return None,
    };
    let close: usize = q.len() - 1;
    if q[close] != '}' {
        return None;
    }
    let head = part(&q, 0, open);
    proof {
        assert(head@ =~= q@.take(open as int));
    }
    let metric = trim(&head);
    if metric.len() == 0 {
        return None;
    }
    let mut inner = part(&q, open + 1, close);
    if find_outside(&inner, '{').is_some() || find_outside(&inner, '}').is_some() {
        return None;
    }
    let mut asset: Option<String> = None;
    let mut others: Vec<String> = Vec::new();
    let ghost want = labels_of(Labels { asset: None, others: Seq::empty() }, inner@);
    proof {
        assert(views(others@) =~= Seq::empty());
    }
    let mut more = true;
    while more
        invariant
            parse_of(query@) == match want {
                Some(l) => match l.asset {
                    Some(asset) => Some(
                        ParsedQueryView { metric: metric@, asset, others: l.others },
                    ),
                    None => None,
                },
                None => None,
            },
            more ==> want == labels_of(labels_view(asset, others@), inner@),
            !more ==> want == Some(labels_view(asset, others@)),
        decreases inner@.len(), if more { 1int } else { 0 },
    {
        let n: usize = inner.len();
        match find_outside(&inner, ',') {
            Some(i) => {
                let piece = part(&inner, 0, i);
                let label = trim(&piece);
                proof {
                    assert(piece@ =~= inner@.take(i as int));
                }
                if !take_label(&label, &mut asset, &mut others) {
                    return None;
                }
                let rest = part(&inner, i + 1, n);
                proof {
                    assert(rest@ =~= inner@.skip(i + 1));
                }
                inner = rest;
            },
            None => {
                let label = trim(&inner);
                if !take_label(&label, &mut asset, &mut others) {
                    return None;
                }
                more = false;
            },
        }
    }
    match asset {
        Some(asset) => Some(ParsedQuery { metric: text_of(&metric), asset, others }),
        None => None,
    }
}

// ---------------------------------------------------------------------------
// Building queries.

/// A character with a meaning of its own in a regular expression.
pub open spec fn meta_char(c: char) -> bool {
    c == '\\' || c == '.' || c == '+' || c == '*' || c == '?' || c == '(' || c == ')' || c == '|'
        || c == '[' || c == ']' || c == '{' || c == '}' || c == '^' || c == '$'
}

/// A text as a regular expression that matches it literally: a backslash stands
/// before each character that has a meaning of its own.
pub open spec fn literal_pattern(s: Seq<char>) -> Seq<char>
    decreases s.len(),
{
    if s.len() == 0 {
        Seq::empty()
    } else {
        let init = literal_pattern(s.drop_last());
        if meta_char(s.last()) {
            init.push('\\').push(s.last())
        } else {
            init.push(s.last())
        }
    }
}

/// Escapes a text, so that a regular expression matches it literally.
pub fn escape_regex(s: &str) -> (out: String)
    ensures
        out@ == literal_pattern(s@),
{
    let chars = chars_of(s);
    let mut out = String::new();
    let mut i: usize = 0;
    while i < chars.len()
        invariant
            i <= chars@.len(),
            out@ == literal_pattern(chars@.take(i as int)),
        decreases chars@.len() - i,
    {
        let c = chars[i];
        if c == '\\' || c == '.' || c == '+' || c == '*' || c == '?' || c == '(' || c == ')' || c
            == '|' || c == '[' || c == ']' || c == '{' || c == '}' || c == '^' || c == '$' {
            out.push('\\');
        }
        out.push(c);
        i = i + 1;
        proof {
            assert(chars@.take(i as int).drop_last() =~= chars@.take(i - 1));
            assert(chars@.take(i as int).last() == c);
        }
    }
    proof {
        assert(chars@.take(i as int) =~= chars@);
    }
    out
}

/// Texts one after the other, with a separator in between.
pub open spec fn joined(list: Seq<Seq<char>>, sep: Seq<char>) -> Seq<char>
    decreases list.len(),
{
    if list.len() == 0 {
        Seq::empty()
    } else if list.len() == 1 {
        list[0]
    } else {
        joined(list.drop_last(), sep) + sep + list.last()
    }
}

/// Joins texts with a separator in between.
pub fn join(list: &[String], sep: &str) -> (out: String)
    ensures
        out@ == joined(views(list@), sep@),
{
    let ghost all = views(list@);
    let mut out = String::new();
    let mut i: usize = 0;
    while i < list.len()
        invariant
            i <= list@.len(),
            all == views(list@),
            out@ == joined(all.take(i as int), sep@),
        decreases list@.len() - i,
    {
        if i > 0 {
            out.append(sep);
        }
        out.append(list[i].as_str());
        proof {
            assert(all.take(i + 1).drop_last() =~= all.take(i as int));
            assert(all.take(i + 1).last() == list@[i as int]@);
            if i == 0 {
                assert(out@ =~= list@[0]@);
            }
        }
        i = i + 1;
    }
    proof {
        assert(all.take(i as int) =~= all);
    }
    out
}

/// The query that asks for one metric of many assets:
/// `metric{[others,]asset=~"A|B|C"}`.
pub open spec fn batched_query(
    metric: Seq<char>,
    others: Seq<Seq<char>>,
    assets: Seq<Seq<char>>,
) -> Seq<char> {
    let patterns = assets.map_values(|a: Seq<char>| literal_pattern(a));
    let matcher = "asset=~\""@ + joined(patterns, "|"@) + "\""@;
    metric + "{"@ + (joined(others.push(matcher), ","@) + "}"@)
}

/// Builds the query that asks for one metric of many assets.
pub fn build_batched_query(metric: &str, others: &[String], assets: &[String]) -> (out: String)
    ensures
        out@ == batched_query(metric@, views(others@), views(assets@)),
{
    broadcast use group_models;

    let ghost patterns = views(assets@).map_values(|a: Seq<char>| literal_pattern(a));
    let mut escaped: Vec<String> = Vec::new();
    let mut i: usize = 0;
    while i < assets.len()
        invariant
            i <= assets@.len(),
            patterns == views(assets@).map_values(|a: Seq<char>| literal_pattern(a)),
            views(escaped@) == patterns.take(i as int),
        decreases assets@.len() - i,
    {
        escaped.push(escape_regex(assets[i].as_str()));
        i = i + 1;
        proof {
            assert(patterns.take(i as int) =~= patterns.take(i - 1).push(patterns[i - 1]));
        }
    }
    proof {
        assert(patterns.take(i as int) =~= patterns);
    }
    let alt = join(&escaped, "|");
    let mut matchers: Vec<String> = Vec::new();
    let mut j: usize = 0;
    while j < others.len()
        invariant
            j <= others@.len(),
            views(matchers@) == views(others@).take(j as int),
        decreases others@.len() - j,
    {
        matchers.push(others[j].clone());
        j = j + 1;
        proof {
            assert(views(others@).take(j as int) =~= views(others@).take(j - 1).push(
                others@[j - 1]@,
            ));
        }
    }
    proof {
        assert(views(others@).take(j as int) =~= views(others@));
    }
    matchers.push(cat3("asset=~\"", alt.as_str(), "\""));
    let tail = cat3(join(&matchers, ",").as_str(), "}", "");
    proof {
        reveal_strlit("");
        assert(tail@ =~= joined(views(matchers@), ","@) + "}"@);
    }
    cat3(metric, "{", tail.as_str())
}

} // verus!
