//! Aider: `CONVENTIONS.md` and the flat `.aider.conf.yml`.
//!
//! `.aider.conf.yml` is a flat top-level YAML map in practice (no nested
//! structures for the keys this adapter cares about), so a line-based parser
//! is enough.

use vstd::prelude::*;

use crate::adapters::paths::{
    collect_sources, escapes_root, file_name, file_name_of, generated_doc, generated_doc_of,
    leaves_root, name_parts, provenance_stripped, sources_for, stem_of, strip_provenance,
};
use crate::brain::{make_skill, skill_view, skill_views, SkillV};
use crate::model::{AdapterError, Skill};
use crate::text::{
    append_chars, append_str, chars_of, decimal, ends_with, ends_with_str, equals_str,
    find_char, index_of_char, is_ws, join, join_chars, lemma_deep_view_chars,
    lemma_deep_view_push, lemma_find_char_at, lemma_find_char_bound, lemma_join_push,
    lemma_lead_ws_at, lemma_lines_of_join, lemma_trail_ws_at, lemma_trim_char_unchanged,
    lemma_trim_unchanged, lines, owned, push_decimal, slice_chars,
    split_at_char, split_char, split_lines, starts_with, starts_with_str, string_of, trim,
    trim_char, trim_char_chars, trim_chars,
};

verus! {

pub struct AiderAdapter;

/// One line of a flat YAML file.
pub enum YamlLine {
    /// Empty or a comment.
    Blank,
    /// `key: value`.
    Pair(Seq<char>, Seq<char>),
    /// Malformed, with the error message.
    Bad(Seq<char>),
}

/// What the line with the (1-based) `number` says.
pub open spec fn yaml_line(raw: Seq<char>, number: nat) -> YamlLine {
    let t = trim(raw);
    if t.len() == 0 || starts_with(t, "#"@) {
        YamlLine::Blank
    } else {
        let ci = find_char(t, ':');
        if ci >= t.len() {
            YamlLine::Bad(
                "malformed config: line "@ + decimal(number) + ": expected `key: value`, got `"@ + t
                    + "`"@,
            )
        } else {
            let key = trim(t.take(ci));
            let val = trim(t.skip(ci + 1));
            if starts_with(val, "["@) && !ends_with(val, "]"@) {
                YamlLine::Bad(
                    "malformed config: line "@ + decimal(number) + " has unclosed bracket in YAML"@,
                )
            } else {
                YamlLine::Pair(key, trim_char(trim_char(val, '"'), '\''))
            }
        }
    }
}

/// The pairs of a flat YAML file given as lines, or the message of its first
/// malformed line.
pub open spec fn flat_yaml(ls: Seq<Seq<char>>) -> Result<Seq<(Seq<char>, Seq<char>)>, Seq<char>>
    decreases ls.len(),
{
    if ls.len() == 0 {
        Ok(seq![])
    } else {
        match flat_yaml(ls.drop_last()) {
            Err(m) => Err(m),
            Ok(ps) => match yaml_line(ls.last(), ls.len()) {
                YamlLine::Blank => Ok(ps),
                YamlLine::Pair(k, v) => Ok(ps.push((k, v))),
                YamlLine::Bad(m) => Err(m),
            },
        }
    }
}

/// The views of a list of pairs.
pub open spec fn pair_views(v: Seq<(String, String)>) -> Seq<(Seq<char>, Seq<char>)> {
    v.map_values(|p: (String, String)| (p.0@, p.1@))
}

fn pair_of(k: &Vec<char>, v: &Vec<char>) -> (p: (String, String))
    ensures
        p.0@ == k@,
        p.1@ == v@,
{
    (string_of(k), string_of(v))
}

fn malformed(msg: Vec<char>) -> (e: AdapterError)
    ensures
        e matches AdapterError::Malformed(m) && m@ == msg@,
{
    AdapterError::Malformed(string_of(&msg))
}

/// Parses `.aider.conf.yml` into its `key: value` pairs, in order. Blank
/// lines and `#` comments are skipped; values lose surrounding quotes.
pub fn parse_flat_yaml(content: &str) -> (r: Result<Vec<(String, String)>, AdapterError>)
    ensures
        r matches Ok(v) ==> flat_yaml(lines(content@)) == Ok::<
            Seq<(Seq<char>, Seq<char>)>,
            Seq<char>,
        >(pair_views(v@)),
        r matches Err(e) ==> (e matches AdapterError::Malformed(m) && flat_yaml(lines(content@))
            == Err::<Seq<(Seq<char>, Seq<char>)>, Seq<char>>(m@)),
{
    let chars = chars_of(content);
    let ls = split_lines(&chars);
    let ghost all = ls.deep_view();
    let mut pairs: Vec<(String, String)> = Vec::new();
    let mut i: usize = 0;
    proof {
        assert(all.take(0) =~= Seq::<Seq<char>>::empty());
        assert(pair_views(pairs@) =~= Seq::<(Seq<char>, Seq<char>)>::empty());
    }
    while i < ls.len()
        invariant
            i <= ls@.len(),
            all == ls.deep_view(),
            all == lines(content@),
            flat_yaml(all.take(i as int)) == Ok::<Seq<(Seq<char>, Seq<char>)>, Seq<char>>(
                pair_views(pairs@),
            ),
        decreases ls.len() - i,
    {
        let ghost pre = all.take(i as int);
        let ghost cur = all.take(i + 1);
        proof {
            lemma_deep_view_chars(ls@[i as int]);
            assert(cur.drop_last() =~= pre);
            assert(cur.last() == ls@[i as int]@);
            assert(cur.len() == i + 1);
        }
        let t = trim_chars(&ls[i]);
        if t.len() == 0 || starts_with_str(&t, "#") {
            i = i + 1;
            continue;
        }
        let ci = index_of_char(&t, ':');
        if ci >= t.len() {
            let mut m = chars_of("malformed config: line ");
            push_decimal(&mut m, i as u64 + 1);
            append_str(&mut m, ": expected `key: value`, got `");
            append_chars(&mut m, &t);
            append_str(&mut m, "`");
            proof {
                assert(m@ =~= "malformed config: line "@ + decimal((i + 1) as nat)
                    + ": expected `key: value`, got `"@ + t@ + "`"@);
                assert(flat_yaml(all) == flat_yaml(cur)) by {
                    lemma_flat_yaml_error_stays(all, i as int + 1);
                }
            }
            return Err(malformed(m));
        }
        let key = trim_chars(&slice_chars(&t, 0, ci));
        let val = trim_chars(&slice_chars(&t, ci + 1, t.len()));
        proof {
            assert(t@.take(ci as int) =~= t@.subrange(0, ci as int));
            assert(t@.skip(ci + 1) =~= t@.subrange(ci + 1, t@.len() as int));
        }
        if starts_with_str(&val, "[") && !ends_with_str(&val, "]") {
            let mut m = chars_of("malformed config: line ");
            push_decimal(&mut m, i as u64 + 1);
            append_str(&mut m, " has unclosed bracket in YAML");
            proof {
                assert(m@ =~= "malformed config: line "@ + decimal((i + 1) as nat)
                    + " has unclosed bracket in YAML"@);
                assert(flat_yaml(all) == flat_yaml(cur)) by {
                    lemma_flat_yaml_error_stays(all, i as int + 1);
                }
            }
            return Err(malformed(m));
        }
        let value = trim_char_chars(&trim_char_chars(&val, '"'), '\'');
        let ghost before = pairs@;
        pairs.push(pair_of(&key, &value));
        proof {
            assert(pair_views(pairs@) =~= pair_views(before).push((key@, value@)));
        }
        i = i + 1;
    }
    proof {
        assert(all.take(i as int) =~= all);
    }
    Ok(pairs)
}

/// Once a prefix of the lines is malformed, the whole file is, with the same
/// message.
proof fn lemma_flat_yaml_error_stays(ls: Seq<Seq<char>>, k: int)
    requires
        0 <= k <= ls.len(),
        flat_yaml(ls.take(k)) is Err,
    ensures
        flat_yaml(ls) == flat_yaml(ls.take(k)),
    decreases ls.len() - k,
{
    if k < ls.len() {
        assert(ls.take(k + 1).drop_last() =~= ls.take(k));
        assert(flat_yaml(ls.take(k + 1)) == flat_yaml(ls.take(k)));
        lemma_flat_yaml_error_stays(ls, k + 1);
    } else {
        assert(ls.take(k) =~= ls);
    }
}

/// `key: value` lines joined by newlines.
pub open spec fn flat_yaml_text(pairs: Seq<(Seq<char>, Seq<char>)>) -> Seq<char> {
    join(pairs.map_values(|p: (Seq<char>, Seq<char>)| p.0 + ": "@ + p.1), "\n"@)
}

/// Writes pairs back as `key: value` lines.
pub fn serialize_flat_yaml(pairs: &[(String, String)]) -> (s: String)
    ensures
        s@ == flat_yaml_text(pair_views(pairs@)),
{
    let mut parts: Vec<Vec<char>> = Vec::new();
    let mut i: usize = 0;
    let ghost all = pair_views(pairs@).map_values(|p: (Seq<char>, Seq<char>)| p.0 + ": "@ + p.1);
    proof {
        assert(parts.deep_view() =~= all.take(0));
    }
    while i < pairs.len()
        invariant
            i <= pairs@.len(),
            all == pair_views(pairs@).map_values(|p: (Seq<char>, Seq<char>)| p.0 + ": "@ + p.1),
            parts.deep_view() == all.take(i as int),
        decreases pairs.len() - i,
    {
        let mut line = chars_of(pairs[i].0.as_str());
        append_str(&mut line, ": ");
        append_str(&mut line, pairs[i].1.as_str());
        let ghost before = parts;
        parts.push(line);
        proof {
            lemma_deep_view_push(before, parts, line);
            assert(parts.deep_view() =~= all.take(i + 1));
        }
        i = i + 1;
    }
    proof {
        assert(all.take(i as int) =~= all);
    }
    let out = join_chars(&parts, "\n");
    string_of(&out)
}

// ── round trip ──────────────────────────────────────────────────────────

/// A pair that survives being written and read back: the key holds no `:`
/// or line break, does not start with `#`, and has no surrounding
/// whitespace; the value holds no line break, has no surrounding whitespace
/// or quotes, and does not open a bracket it leaves unclosed.
pub open spec fn clean_pair(k: Seq<char>, v: Seq<char>) -> bool {
    &&& forall|j: int| 0 <= j < k.len() ==> #[trigger] k[j] != ':' && k[j] != '\n'
    &&& k.len() == 0 || (!is_ws(k[0]) && !is_ws(k.last()) && k[0] != '#')
    &&& forall|j: int| 0 <= j < v.len() ==> #[trigger] v[j] != '\n'
    &&& v.len() == 0 || (!is_ws(v[0]) && !is_ws(v.last()) && v[0] != '"' && v[0] != '\''
        && v.last() != '"' && v.last() != '\'')
    &&& !(starts_with(v, "["@) && !ends_with(v, "]"@))
}

/// The line a pair is written as.
pub open spec fn pair_line(p: (Seq<char>, Seq<char>)) -> Seq<char> {
    p.0 + ": "@ + p.1
}

proof fn lemma_clean_line_reads_back(k: Seq<char>, v: Seq<char>, n: nat)
    requires
        clean_pair(k, v),
    ensures
        yaml_line(pair_line((k, v)), n) == YamlLine::Pair(k, v),
        pair_line((k, v)).len() > 0,
        pair_line((k, v)).last() != '\r',
        forall|j: int| 0 <= j < pair_line((k, v)).len() ==> #[trigger] pair_line((k, v))[j] != '\n',
{
    reveal_strlit(": ");
    reveal_strlit("#");
    let line = pair_line((k, v));
    let kl = k.len() as int;
    assert(line[kl] == ':');
    assert(line[kl + 1] == ' ');
    assert forall|j: int| 0 <= j < line.len() implies #[trigger] line[j] != '\n' by {
        if j < kl {
            assert(line[j] == k[j]);
        } else if j >= kl + 2 {
            assert(line[j] == v[j - kl - 2]);
        }
    }
    let t = if v.len() == 0 {
        k + ":"@
    } else {
        line
    };
    reveal_strlit(":");
    // the trimmed line
    if v.len() == 0 {
        assert(line =~= k + ":"@ + seq![' ']);
        lemma_lead_ws_at(line, 0);
        assert(line.skip(0) =~= line);
        assert(is_ws(line.last()));
        lemma_trail_ws_at(line, line.len() - 1);
        assert(trim(line) =~= t);
    } else {
        assert(line.last() == v.last());
        lemma_lead_ws_at(line, 0);
        assert(line.skip(0) =~= line);
        lemma_trail_ws_at(line, line.len() as int);
        assert(trim(line) =~= t);
    }
    assert(t.len() > 0);
    assert(!starts_with(t, "#"@)) by {
        if kl > 0 {
            assert(t[0] == k[0]);
        } else {
            assert(t[0] == ':');
        }
        if starts_with(t, "#"@) {
            assert(t.take(1)[0] == t[0]);
        }
    }
    assert forall|j: int| 0 <= j < kl implies #[trigger] t[j] != ':' by {
        assert(t[j] == k[j]);
    }
    assert(t[kl] == ':');
    lemma_find_char_at(t, ':', kl);
    assert(t.take(kl) =~= k);
    lemma_trim_unchanged(k);
    let rest = t.skip(kl + 1);
    if v.len() == 0 {
        assert(rest =~= Seq::<char>::empty());
        assert(trim(rest) =~= v);
    } else {
        assert(rest =~= seq![' '] + v);
        lemma_lead_ws_at(rest, 1);
        assert(rest.skip(1) =~= v);
        lemma_trail_ws_at(v, v.len() as int);
        assert(v.take(v.len() as int) =~= v);
        assert(trim(rest) =~= v);
    }
    lemma_trim_char_unchanged(v, '"');
    lemma_trim_char_unchanged(v, '\'');
}

proof fn lemma_flat_yaml_of_clean_lines(pairs: Seq<(Seq<char>, Seq<char>)>)
    requires
        forall|i: int| 0 <= i < pairs.len() ==> clean_pair(#[trigger] pairs[i].0, pairs[i].1),
    ensures
        flat_yaml(pairs.map_values(|p: (Seq<char>, Seq<char>)| pair_line(p))) == Ok::<
            Seq<(Seq<char>, Seq<char>)>,
            Seq<char>,
        >(pairs),
    decreases pairs.len(),
{
    let ls = pairs.map_values(|p: (Seq<char>, Seq<char>)| pair_line(p));
    if pairs.len() > 0 {
        let front = pairs.drop_last();
        assert forall|i: int| 0 <= i < front.len() implies clean_pair(#[trigger] front[i].0, front[i].1) by {
            assert(front[i] == pairs[i]);
        }
        lemma_flat_yaml_of_clean_lines(front);
        assert(ls.drop_last() =~= front.map_values(|p: (Seq<char>, Seq<char>)| pair_line(p)));
        let last = pairs.last();
        assert(clean_pair(pairs[pairs.len() - 1].0, pairs[pairs.len() - 1].1));
        lemma_clean_line_reads_back(last.0, last.1, ls.len());
        assert(ls.last() == pair_line(last));
        assert(flat_yaml(ls.drop_last()) == Ok::<Seq<(Seq<char>, Seq<char>)>, Seq<char>>(front));
        assert(yaml_line(ls.last(), ls.len()) == YamlLine::Pair(last.0, last.1));
        assert(flat_yaml(ls) == Ok::<Seq<(Seq<char>, Seq<char>)>, Seq<char>>(
            front.push((last.0, last.1)),
        ));
        assert(front.push((last.0, last.1)) =~= pairs);
    } else {
        assert(ls.len() == 0);
        assert(pairs =~= Seq::<(Seq<char>, Seq<char>)>::empty());
    }
}

/// Writing clean pairs and reading them back gives the same pairs, in the
/// same order: what `serialize_flat_yaml` writes, `parse_flat_yaml` reads.
pub proof fn lemma_flat_yaml_round_trip(pairs: Seq<(Seq<char>, Seq<char>)>)
    requires
        forall|i: int| 0 <= i < pairs.len() ==> clean_pair(#[trigger] pairs[i].0, pairs[i].1),
    ensures
        flat_yaml(lines(flat_yaml_text(pairs))) == Ok::<Seq<(Seq<char>, Seq<char>)>, Seq<char>>(
            pairs,
        ),
{
    let ls = pairs.map_values(|p: (Seq<char>, Seq<char>)| pair_line(p));
    let written = pairs.map_values(|p: (Seq<char>, Seq<char>)| p.0 + ": "@ + p.1);
    assert(written =~= ls);
    assert forall|i: int| 0 <= i < ls.len() implies (#[trigger] ls[i]).len() > 0 by {
        lemma_clean_line_reads_back(pairs[i].0, pairs[i].1, 0);
    }
    assert forall|i: int, j: int| 0 <= i < ls.len() && 0 <= j < ls[i].len() implies #[trigger] ls[i][j]
        != '\n' by {
        lemma_clean_line_reads_back(pairs[i].0, pairs[i].1, 0);
        assert(ls[i] == pair_line((pairs[i].0, pairs[i].1)));
    }
    assert forall|i: int| 0 <= i < ls.len() implies (#[trigger] ls[i]).last() != '\r' by {
        lemma_clean_line_reads_back(pairs[i].0, pairs[i].1, 0);
    }
    lemma_lines_of_join(ls);
    lemma_flat_yaml_of_clean_lines(pairs);
}

/// Index of the first pair with `key`, or `pairs.len()`.
pub open spec fn key_index(pairs: Seq<(Seq<char>, Seq<char>)>, key: Seq<char>) -> int
    decreases pairs.len(),
{
    if pairs.len() == 0 {
        0
    } else if pairs[0].0 == key {
        0
    } else {
        1 + key_index(pairs.drop_first(), key)
    }
}

proof fn lemma_key_index_at(pairs: Seq<(Seq<char>, Seq<char>)>, key: Seq<char>, i: int)
    requires
        0 <= i <= pairs.len(),
        forall|j: int| 0 <= j < i ==> (#[trigger] pairs[j]).0 != key,
        i == pairs.len() || pairs[i].0 == key,
    ensures
        key_index(pairs, key) == i,
    decreases i,
{
    if i > 0 {
        let t = pairs.drop_first();
        assert forall|j: int| 0 <= j < i - 1 implies (#[trigger] t[j]).0 != key by {
            assert(t[j] == pairs[j + 1]);
        }
        if i < pairs.len() {
            assert(t[i - 1] == pairs[i]);
        }
        lemma_key_index_at(t, key, i - 1);
    }
}

/// The pairs after setting `key` to `value`: the first pair with that key
/// gets the new value; when there is none, the pair is appended.
pub open spec fn with_key(pairs: Seq<(Seq<char>, Seq<char>)>, key: Seq<char>, value: Seq<char>) -> Seq<
    (Seq<char>, Seq<char>),
> {
    let i = key_index(pairs, key);
    if 0 <= i < pairs.len() {
        pairs.update(i, (pairs[i].0, value))
    } else {
        pairs.push((key, value))
    }
}

/// Sets `key` to `value`, keeping every other pair and the order.
pub fn set_key(pairs: &mut Vec<(String, String)>, key: &str, value: &str)
    ensures
        pair_views(final(pairs)@) == with_key(pair_views(old(pairs)@), key@, value@),
{
    let ghost old_views = pair_views(pairs@);
    let mut i: usize = 0;
    while i < pairs.len()
        invariant
            i <= pairs@.len(),
            old_views == pair_views(pairs@),
            old_views == pair_views(old(pairs)@),
            forall|j: int| 0 <= j < i ==> (#[trigger] old_views[j]).0 != key@,
        decreases pairs.len() - i,
    {
        let name = chars_of(pairs[i].0.as_str());
        if equals_str(&name, key) {
            proof {
                lemma_key_index_at(old_views, key@, i as int);
            }
            let entry = (pairs[i].0.clone(), owned(value));
            let ghost kept = pairs@[i as int].0;
            proof {
                assert(entry.0 == kept);
            }
            pairs.set(i, entry);
            proof {
                assert(pair_views(pairs@) =~= old_views.update(i as int, (old_views[i as int].0, value@)));
            }
            return;
        }
        proof {
            assert(old_views[i as int].0 == pairs@[i as int].0@);
        }
        i = i + 1;
    }
    proof {
        lemma_key_index_at(old_views, key@, i as int);
    }
    pairs.push((owned(key), owned(value)));
    proof {
        assert(pair_views(pairs@) =~= old_views.push((key@, value@)));
    }
}

/// Setting a key and reading it back: the first pair with `key` carries
/// `value`, and no pair with another key changes.
pub proof fn lemma_set_key_reads_back(
    pairs: Seq<(Seq<char>, Seq<char>)>,
    key: Seq<char>,
    value: Seq<char>,
)
    ensures
        ({
            let after = with_key(pairs, key, value);
            let i = key_index(after, key);
            &&& 0 <= i < after.len()
            &&& after[i] == (key, value)
            &&& forall|j: int| 0 <= j < pairs.len() && pairs[j].0 != key ==> after[j] == pairs[j]
            &&& after.len() == if key_index(pairs, key) < pairs.len() {
                pairs.len()
            } else {
                pairs.len() + 1
            }
        }),
    decreases pairs.len(),
{
    lemma_key_index_bound(pairs, key);
    let i = key_index(pairs, key);
    let after = with_key(pairs, key, value);
    lemma_key_index_facts(pairs, key);
    if i < pairs.len() {
        assert forall|j: int| 0 <= j < i implies (#[trigger] after[j]).0 != key by {
            assert(after[j] == pairs[j]);
        }
        lemma_key_index_at(after, key, i);
    } else {
        assert forall|j: int| 0 <= j < pairs.len() implies (#[trigger] after[j]).0 != key by {
            assert(after[j] == pairs[j]);
        }
        lemma_key_index_at(after, key, pairs.len() as int);
    }
}

proof fn lemma_key_index_bound(pairs: Seq<(Seq<char>, Seq<char>)>, key: Seq<char>)
    ensures
        0 <= key_index(pairs, key) <= pairs.len(),
    decreases pairs.len(),
{
    if pairs.len() > 0 && pairs[0].0 != key {
        lemma_key_index_bound(pairs.drop_first(), key);
    }
}

proof fn lemma_key_index_facts(pairs: Seq<(Seq<char>, Seq<char>)>, key: Seq<char>)
    ensures
        forall|j: int| 0 <= j < key_index(pairs, key) ==> (#[trigger] pairs[j]).0 != key,
        key_index(pairs, key) < pairs.len() ==> pairs[key_index(pairs, key)].0 == key,
    decreases pairs.len(),
{
    if pairs.len() > 0 && pairs[0].0 != key {
        let t = pairs.drop_first();
        lemma_key_index_facts(t, key);
        lemma_key_index_bound(t, key);
        assert forall|j: int| 0 <= j < key_index(pairs, key) implies (#[trigger] pairs[j]).0 != key by {
            if j > 0 {
                assert(pairs[j] == t[j - 1]);
            }
        }
        if key_index(t, key) < t.len() {
            assert(pairs[key_index(pairs, key)] == t[key_index(t, key)]);
        }
    }
}

// ── the `read:` list ────────────────────────────────────────────────────

/// `\` replaced by `/`.
pub open spec fn forward_slashes(s: Seq<char>) -> Seq<char> {
    s.map_values(|c: char| if c == '\\' { '/' } else { c })
}

/// One entry of a `read:` list, unquoted and with forward slashes.
pub open spec fn read_item(item: Seq<char>) -> Seq<char> {
    forward_slashes(trim_char(trim_char(trim(item), '"'), '\''))
}

/// The non-empty entries of `items`, each cleaned by `read_item`.
pub open spec fn read_items(items: Seq<Seq<char>>) -> Seq<Seq<char>>
    decreases items.len(),
{
    if items.len() == 0 {
        seq![]
    } else {
        let rest = read_items(items.drop_last());
        let p = read_item(items.last());
        if p.len() == 0 {
            rest
        } else {
            rest.push(p)
        }
    }
}

/// The paths listed by a `read:` value such as `[CONVENTIONS.md, "docs\x.md"]`.
pub open spec fn read_path_list(value: Seq<char>) -> Seq<Seq<char>> {
    read_items(split_char(trim(trim_char(trim_char(value, '['), ']')), ','))
}

/// The paths named by the value of a `read:` key, in order, without empty
/// entries.
pub fn read_paths(value: &str) -> (paths: Vec<String>)
    ensures
        crate::model::string_seq(paths@) == read_path_list(value@),
{
    let v = chars_of(value);
    let cleaned = trim_chars(&trim_char_chars(&trim_char_chars(&v, '['), ']'));
    let items = split_at_char(&cleaned, ',');
    let ghost all = items.deep_view();
    let mut out: Vec<String> = Vec::new();
    let mut i: usize = 0;
    proof {
        assert(all.take(0) =~= Seq::<Seq<char>>::empty());
        assert(crate::model::string_seq(out@) =~= Seq::<Seq<char>>::empty());
    }
    while i < items.len()
        invariant
            i <= items@.len(),
            all == items.deep_view(),
            crate::model::string_seq(out@) == read_items(all.take(i as int)),
        decreases items.len() - i,
    {
        proof {
            lemma_deep_view_chars(items@[i as int]);
            assert(all.take(i + 1).drop_last() =~= all.take(i as int));
            assert(all.take(i + 1).last() == items@[i as int]@);
        }
        let t = trim_char_chars(&trim_char_chars(&trim_chars(&items[i]), '"'), '\'');
        let mut p: Vec<char> = Vec::new();
        let mut k: usize = 0;
        while k < t.len()
            invariant
                k <= t@.len(),
                p@ == forward_slashes(t@).take(k as int),
            decreases t.len() - k,
        {
            if t[k] == '\\' {
                p.push('/');
            } else {
                p.push(t[k]);
            }
            k = k + 1;
            assert(p@ =~= forward_slashes(t@).take(k as int));
        }
        proof {
            assert(forward_slashes(t@).take(k as int) =~= forward_slashes(t@));
        }
        if p.len() > 0 {
            let ghost before = out@;
            out.push(string_of(&p));
            proof {
                assert(crate::model::string_seq(out@) =~= crate::model::string_seq(before).push(
                    p@,
                ));
            }
        }
        i = i + 1;
    }
    proof {
        assert(all.take(i as int) =~= all);
    }
    out
}

/// The paths every `read:` key of the pairs lists, in order.
pub open spec fn read_list(ps: Seq<(Seq<char>, Seq<char>)>) -> Seq<Seq<char>>
    decreases ps.len(),
{
    if ps.len() == 0 {
        seq![]
    } else {
        let rest = read_list(ps.drop_last());
        if ps.last().0 == "read"@ {
            rest + read_path_list(ps.last().1)
        } else {
            rest
        }
    }
}

/// The files an import reads as skills, from the text of `.aider.conf.yml`:
/// the paths listed by its `read:` keys, in order; a malformed config is an
/// error.
pub fn read_list_of(conf: &str) -> (r: Result<Vec<String>, AdapterError>)
    ensures
        match r {
            Ok(v) => (flat_yaml(lines(conf@)) matches Ok(ps) && crate::model::string_seq(v@)
                == read_list(ps)),
            Err(e) => (e matches AdapterError::Malformed(m) && flat_yaml(lines(conf@)) == Err::<
                Seq<(Seq<char>, Seq<char>)>,
                Seq<char>,
            >(m@)),
        },
{
    let pairs = match parse_flat_yaml(conf) {
        Ok(p) => p,
        Err(e) => {
            return Err(e);
        },
    };
    let ghost ps = pair_views(pairs@);
    let mut out: Vec<String> = Vec::new();
    let mut i: usize = 0;
    proof {
        assert(ps.take(0) =~= Seq::<(Seq<char>, Seq<char>)>::empty());
        assert(crate::model::string_seq(out@) =~= Seq::<Seq<char>>::empty());
    }
    while i < pairs.len()
        invariant
            i <= pairs@.len(),
            ps == pair_views(pairs@),
            crate::model::string_seq(out@) == read_list(ps.take(i as int)),
        decreases pairs.len() - i,
    {
        proof {
            assert(ps.take(i + 1).drop_last() =~= ps.take(i as int));
            assert(ps.take(i + 1).last() == ps[i as int]);
            assert(ps[i as int] == (pairs@[i as int].0@, pairs@[i as int].1@));
        }
        let k = chars_of(pairs[i].0.as_str());
        if equals_str(&k, "read") {
            let more = read_paths(pairs[i].1.as_str());
            let ghost start = crate::model::string_seq(out@);
            let mut j: usize = 0;
            while j < more.len()
                invariant
                    j <= more@.len(),
                    crate::model::string_seq(out@) == start + crate::model::string_seq(more@).take(
                        j as int,
                    ),
                decreases more.len() - j,
            {
                let ghost before = out@;
                let c = owned(more[j].as_str());
                out.push(c);
                proof {
                    assert(crate::model::string_seq(out@) =~= crate::model::string_seq(before).push(c@));
                    assert(start + crate::model::string_seq(more@).take(j + 1) =~= (start
                        + crate::model::string_seq(more@).take(j as int)).push(more@[j as int]@));
                }
                j = j + 1;
            }
            proof {
                assert(crate::model::string_seq(more@).take(j as int) =~= crate::model::string_seq(
                    more@,
                ));
            }
        }
        i = i + 1;
    }
    proof {
        assert(ps.take(i as int) =~= ps);
    }
    Ok(out)
}

// ── import ──────────────────────────────────────────────────────────────

/// The skill id of a file listed under `read:`: its file stem, or `rules`
/// when the path names no file.
pub open spec fn read_skill_id(path: Seq<char>) -> Seq<char> {
    match file_name_of(path) {
        Some(n) => stem_of(n),
        None => "rules"@,
    }
}

/// The content and hash the caller read for `path`: the first entry of
/// `files` with that path; `None` when the file does not exist or could not
/// be read.
pub open spec fn read_file(files: Seq<(Seq<char>, Option<(Seq<char>, Seq<char>)>)>, path: Seq<char>) -> Option<
    (Seq<char>, Seq<char>),
>
    decreases files.len(),
{
    if files.len() == 0 {
        None
    } else if files[0].0 == path {
        files[0].1
    } else {
        read_file(files.drop_first(), path)
    }
}

/// The message for a `read:` path that leaves the project.
pub open spec fn traversal_message(path: Seq<char>) -> Seq<char> {
    "malformed config: path traversal detected in read path: "@ + path
}

/// The skills of the `read:` files, in order: one per listed file that was
/// read (its id the file stem, its trigger the path, its source without the
/// provenance header), refused at the first path that leaves the project.
pub open spec fn read_skills(
    paths: Seq<Seq<char>>,
    files: Seq<(Seq<char>, Option<(Seq<char>, Seq<char>)>)>,
) -> Result<Seq<SkillV>, Seq<char>>
    decreases paths.len(),
{
    if paths.len() == 0 {
        Ok(seq![])
    } else {
        match read_skills(paths.drop_last(), files) {
            Err(m) => Err(m),
            Ok(prev) => {
                let p = paths.last();
                if escapes_root(p) {
                    Err(traversal_message(p))
                } else {
                    match read_file(files, p) {
                        Some(f) => Ok(
                            prev.push(
                                (
                                    read_skill_id(p),
                                    "1.0.0"@,
                                    seq![p],
                                    seq!["aider"@],
                                    provenance_stripped(f.0),
                                    f.1,
                                ),
                            ),
                        ),
                        None => Ok(prev),
                    }
                }
            },
        }
    }
}

/// What importing aider's files gives: the skills of the `read:` files of
/// `.aider.conf.yml` (if there is one), then the `conventions` skill of
/// `CONVENTIONS.md` (if there is one); or the message of a malformed config
/// or a `read:` path that leaves the project.
pub open spec fn aider_import_of(
    conf: Option<Seq<char>>,
    files: Seq<(Seq<char>, Option<(Seq<char>, Seq<char>)>)>,
    conventions: Option<(Seq<char>, Seq<char>)>,
) -> Result<Seq<SkillV>, Seq<char>> {
    let read: Result<Seq<SkillV>, Seq<char>> = match conf {
        None => Ok(seq![]),
        Some(c) => match flat_yaml(lines(c)) {
            Err(m) => Err(m),
            Ok(ps) => read_skills(read_list(ps), files),
        },
    };
    match read {
        Err(m) => Err(m),
        Ok(sk) => match conventions {
            Some(c) => Ok(
                sk.push(
                    ("conventions"@, "1.0.0"@, seq!["*"@], seq!["aider"@], provenance_stripped(c.0), c.1),
                ),
            ),
            None => Ok(sk),
        },
    }
}

proof fn lemma_read_skills_err_stays(
    paths: Seq<Seq<char>>,
    files: Seq<(Seq<char>, Option<(Seq<char>, Seq<char>)>)>,
    k: int,
)
    requires
        0 <= k <= paths.len(),
        read_skills(paths.take(k), files) is Err,
    ensures
        read_skills(paths, files) == read_skills(paths.take(k), files),
    decreases paths.len() - k,
{
    if k < paths.len() {
        assert(paths.take(k + 1).drop_last() =~= paths.take(k));
        lemma_read_skills_err_stays(paths, files, k + 1);
    } else {
        assert(paths.take(k) =~= paths);
    }
}

/// The views of the files the caller read.
pub open spec fn file_views(v: Seq<(String, Option<(String, String)>)>) -> Seq<
    (Seq<char>, Option<(Seq<char>, Seq<char>)>),
> {
    v.map_values(
        |f: (String, Option<(String, String)>)|
            (
                f.0@,
                match f.1 {
                    Some(c) => Some((c.0@, c.1@)),
                    None => None,
                },
            ),
    )
}

fn find_file(files: &[(String, Option<(String, String)>)], path: &str) -> (r: Option<(String, String)>)
    ensures
        match r {
            Some(c) => read_file(file_views(files@), path@) == Some((c.0@, c.1@)),
            None => read_file(file_views(files@), path@) is None,
        },
{
    let ghost fv = file_views(files@);
    let mut i: usize = 0;
    proof {
        assert(fv.skip(0) =~= fv);
    }
    while i < files.len()
        invariant
            i <= files@.len(),
            fv == file_views(files@),
            read_file(fv, path@) == read_file(fv.skip(i as int), path@),
        decreases files.len() - i,
    {
        proof {
            assert(fv.skip(i as int)[0] == fv[i as int]);
            assert(fv.skip(i as int).drop_first() =~= fv.skip(i + 1));
        }
        let name = chars_of(files[i].0.as_str());
        if equals_str(&name, path) {
            return match &files[i].1 {
                Some((c, h)) => Some((owned(c.as_str()), owned(h.as_str()))),
                None => None,
            };
        }
        i = i + 1;
    }
    proof {
        assert(fv.skip(i as int) =~= Seq::<(Seq<char>, Option<(Seq<char>, Seq<char>)>)>::empty());
    }
    None
}

fn read_id(path: &str) -> (id: String)
    ensures
        id@ == read_skill_id(path@),
{
    match file_name(path) {
        Some(n) => name_parts(n.as_str()).0,
        None => owned("rules"),
    }
}

impl AiderAdapter {
    /// Imports aider's files: `conf` is the text of `.aider.conf.yml`, `files`
    /// the files its `read:` keys name as the caller read them (path, and
    /// text with the hash of the text without its provenance header; `None`
    /// for a file that does not exist or could not be read), `conventions`
    /// the text and hash of `CONVENTIONS.md`.
    pub fn import_of(
        &self,
        conf: Option<&str>,
        files: &[(String, Option<(String, String)>)],
        conventions: Option<(&str, &str)>,
    ) -> (r: Result<Vec<Skill>, AdapterError>)
        ensures
            ({
                let want = aider_import_of(
                    crate::compression::opt_view(conf),
                    file_views(files@),
                    match conventions {
                        Some(c) => Some((c.0@, c.1@)),
                        None => None,
                    },
                );
                match r {
                    Ok(v) => want == Ok::<Seq<SkillV>, Seq<char>>(skill_views(v@)),
                    Err(e) => e matches AdapterError::Malformed(m) && want == Err::<
                        Seq<SkillV>,
                        Seq<char>,
                    >(m@),
                }
            }),
    {
        let mut out: Vec<Skill> = Vec::new();
        let ghost read: Result<Seq<SkillV>, Seq<char>> = match crate::compression::opt_view(conf) {
            None => Ok(seq![]),
            Some(c) => match flat_yaml(lines(c)) {
                Err(m) => Err(m),
                Ok(ps) => read_skills(read_list(ps), file_views(files@)),
            },
        };
        if let Some(c) = conf {
            let paths = match read_list_of(c) {
                Ok(p) => p,
                Err(e) => {
                    return Err(e);
                },
            };
            let ghost pv = crate::model::string_seq(paths@);
            let ghost fv = file_views(files@);
            let mut i: usize = 0;
            proof {
                assert(pv.take(0) =~= Seq::<Seq<char>>::empty());
                assert(skill_views(out@) =~= Seq::<SkillV>::empty());
            }
            while i < paths.len()
                invariant
                    i <= paths@.len(),
                    conf == Some(c),
                    flat_yaml(lines(c@)) is Ok,
                    read_list(flat_yaml(lines(c@))->Ok_0) == pv,
                    pv == crate::model::string_seq(paths@),
                    fv == file_views(files@),
                    read_skills(pv.take(i as int), fv) == Ok::<Seq<SkillV>, Seq<char>>(
                        skill_views(out@),
                    ),
                decreases paths.len() - i,
            {
                proof {
                    assert(pv.take(i + 1).drop_last() =~= pv.take(i as int));
                    assert(pv.take(i + 1).last() == paths@[i as int]@);
                }
                let p = paths[i].as_str();
                if leaves_root(p) {
                    let mut m = chars_of("malformed config: path traversal detected in read path: ");
                    append_str(&mut m, p);
                    proof {
                        assert(read_skills(pv.take(i + 1), fv) == Err::<Seq<SkillV>, Seq<char>>(
                            traversal_message(paths@[i as int]@),
                        ));
                        lemma_read_skills_err_stays(pv, fv, i + 1);
                    }
                    return Err(AdapterError::Malformed(string_of(&m)));
                }
                match find_file(files, p) {
                    Some((content, sha)) => {
                        let ghost before = skill_views(out@);
                        let sk = make_skill(read_id(p), p, "aider", strip_provenance(content.as_str()), sha);
                        out.push(sk);
                        proof {
                            assert(skill_views(out@) =~= before.push(skill_view(sk)));
                        }
                    },
                    None => {},
                }
                i = i + 1;
            }
            proof {
                assert(pv.take(i as int) =~= pv);
            }
        }
        proof {
            if conf is None {
                assert(skill_views(out@) =~= Seq::<SkillV>::empty());
            }
        }
        assert(read == Ok::<Seq<SkillV>, Seq<char>>(skill_views(out@)));
        if let Some((c, h)) = conventions {
            let ghost before = skill_views(out@);
            let sk = make_skill(owned("conventions"), "*", "aider", strip_provenance(c), owned(h));
            out.push(sk);
            proof {
                assert(skill_views(out@) =~= before.push(skill_view(sk)));
            }
        }
        Ok(out)
    }
}

// ── projection ──────────────────────────────────────────────────────────

/// The pairs of the projected `.aider.conf.yml`: the existing pairs (none
/// when there is no file) with `read` set to `CONVENTIONS.md`.
pub open spec fn projected_conf(existing: Option<Seq<char>>) -> Result<Seq<char>, Seq<char>> {
    let parsed = match existing {
        Some(c) => flat_yaml(lines(c)),
        None => Ok(seq![]),
    };
    match parsed {
        Ok(ps) => Ok(flat_yaml_text(with_key(ps, "read"@, "CONVENTIONS.md"@))),
        Err(m) => Err(m),
    }
}

/// Projection keeps unrelated keys: when the existing `.aider.conf.yml`
/// reads as clean pairs, the projected file reads back as exactly those
/// pairs with `read` set to `CONVENTIONS.md` (replaced in place, or
/// appended when absent).
pub proof fn lemma_projection_keeps_other_keys(existing: Seq<char>, ps: Seq<(Seq<char>, Seq<char>)>)
    requires
        flat_yaml(lines(existing)) == Ok::<Seq<(Seq<char>, Seq<char>)>, Seq<char>>(ps),
        forall|i: int| 0 <= i < ps.len() ==> clean_pair(#[trigger] ps[i].0, ps[i].1),
    ensures
        projected_conf(Some(existing)) matches Ok(out) && flat_yaml(lines(out)) == Ok::<
            Seq<(Seq<char>, Seq<char>)>,
            Seq<char>,
        >(with_key(ps, "read"@, "CONVENTIONS.md"@)),
{
    reveal_strlit("read");
    reveal_strlit("CONVENTIONS.md");
    reveal_strlit("[");
    let after = with_key(ps, "read"@, "CONVENTIONS.md"@);
    let v = "CONVENTIONS.md"@;
    assert(clean_pair("read"@, v)) by {
        assert(!starts_with(v, "["@)) by {
            assert(v.take(1)[0] == 'C');
        }
    }
    lemma_key_index_bound(ps, "read"@);
    lemma_key_index_facts(ps, "read"@);
    assert forall|i: int| 0 <= i < after.len() implies clean_pair(#[trigger] after[i].0, after[i].1) by {
        let ki = key_index(ps, "read"@);
        if ki < ps.len() {
            if i == ki {
                assert(after[i] == (ps[i].0, v));
                assert(clean_pair(ps[i].0, ps[i].1));
            } else {
                assert(after[i] == ps[i]);
            }
        } else if i < ps.len() {
            assert(after[i] == ps[i]);
        } else {
            assert(after[i] == ("read"@, v));
        }
    }
    lemma_flat_yaml_round_trip(after);
}

impl AiderAdapter {
    pub fn id(&self) -> (id: &'static str)
        ensures
            id@ == "aider"@,
    {
        "aider"
    }

    /// The `CONVENTIONS.md` projected from the Brain: every skill that
    /// targets aider, joined under the generated-file header; `None` when no
    /// skill targets aider (nothing is written then).
    pub fn conventions_file(&self, skills: &[Skill]) -> (doc: Option<String>)
        ensures
            sources_for(skills@, "aider"@).len() == 0 ==> doc is None,
            sources_for(skills@, "aider"@).len() > 0 ==> (doc matches Some(d) && d@
                == generated_doc(sources_for(skills@, "aider"@))),
    {
        let sources = collect_sources(skills, "aider");
        if sources.len() == 0 {
            None
        } else {
            Some(generated_doc_of(&sources))
        }
    }

    /// The `.aider.conf.yml` projected next to `CONVENTIONS.md`: the existing
    /// file's pairs (if there is a file) with `read: CONVENTIONS.md`, so
    /// unrelated keys survive. A malformed existing file is an error.
    pub fn merged_conf(&self, existing: Option<&str>) -> (r: Result<String, AdapterError>)
        ensures
            r matches Ok(s) ==> projected_conf(crate::compression::opt_view(existing)) == Ok::<
                Seq<char>,
                Seq<char>,
            >(s@),
            r matches Err(e) ==> (e matches AdapterError::Malformed(m) && projected_conf(
                crate::compression::opt_view(existing),
            ) == Err::<Seq<char>, Seq<char>>(m@)),
    {
        let mut pairs: Vec<(String, String)> = match existing {
            Some(c) => match parse_flat_yaml(c) {
                Ok(p) => p,
                Err(e) => {
                    return Err(e);
                },
            },
            None => Vec::new(),
        };
        proof {
            if existing is None {
                assert(pair_views(pairs@) =~= Seq::<(Seq<char>, Seq<char>)>::empty());
            }
        }
        set_key(&mut pairs, "read", "CONVENTIONS.md");
        Ok(serialize_flat_yaml(pairs.as_slice()))
    }

    /// The files a projection into aider writes, relative to the tool root,
    /// with their contents: nothing when no skill targets aider; else
    /// `CONVENTIONS.md`, then `.aider.conf.yml` merged into the `existing`
    /// one. A malformed existing config stops the projection after
    /// `CONVENTIONS.md`, with its error.
    pub fn plan(&self, skills: &[Skill], existing: Option<&str>) -> (r: (
        Vec<(String, String)>,
        Option<AdapterError>,
    ))
        ensures
            ({
                let srcs = sources_for(skills@, "aider"@);
                let conf = projected_conf(crate::compression::opt_view(existing));
                let files = r.0@.map_values(|f: (String, String)| (f.0@, f.1@));
                &&& srcs.len() == 0 ==> files.len() == 0 && r.1 is None
                &&& srcs.len() > 0 ==> files.len() >= 1 && files[0] == (
                    "CONVENTIONS.md"@,
                    generated_doc(srcs),
                )
                &&& srcs.len() > 0 ==> (conf matches Ok(c) ==> files.len() == 2 && files[1] == (
                    ".aider.conf.yml"@,
                    c,
                ) && r.1 is None)
                &&& srcs.len() > 0 ==> (conf matches Err(m) ==> files.len() == 1 && (
                r.1 matches Some(AdapterError::Malformed(e)) && e@ == m))
            }),
    {
        let mut files: Vec<(String, String)> = Vec::new();
        match self.conventions_file(skills) {
            None => (files, None),
            Some(doc) => {
                files.push((owned("CONVENTIONS.md"), doc));
                match self.merged_conf(existing) {
                    Ok(c) => {
                        files.push((owned(".aider.conf.yml"), c));
                        (files, None)
                    },
                    Err(e) => (files, Some(e)),
                }
            },
        }
    }
}

} // verus!
