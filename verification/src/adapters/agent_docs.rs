//! Tools that keep a memory file, a skills directory and an agents
//! directory of markdown files with frontmatter, and MCP servers as command
//! lines: the frontmatter format, and the content and place of every file
//! their projection writes.

use vstd::prelude::*;

use crate::adapters::paths::{
    extension_of, name_parts, provenance_stripped, stem_of, strip_provenance, escapes_root, generated_doc, generated_doc_of, generated_header, outside_root_message, safe_join,
    targets_contains,
};
use crate::brain::{make_skill, skill_view, skill_views, SkillV};
use crate::json::{
    entries_of, json_pretty, json_read, json_text, mcp_server_table, merged_mcp, merged_mcp_json,
    parse_json, server_table_of, Json, JsonV,
};
use crate::model::{string_seq, targets_tool, AdapterError, Agent, McpServer, Skill};
use crate::text::{
    append_chars, append_str, chars_of, equals_chars, equals_str, has_prefix, is_ws, join,
    lemma_deep_view_chars, lemma_deep_view_push, lemma_join_first, lemma_lead_ws_at, lemma_lines_cons,
    lemma_split_char_concat, lemma_split_char_none, lemma_join_without, lemma_trim_char_enclosed,
    lemma_trim_char_unchanged, lemma_trim_unchanged, lemma_find_nl_at,
    lemma_trail_ws_at, lines, path_join, slice_chars, split_at_char, split_char, split_lines,
    split_words, starts_with, starts_with_str, string_of, trim, trim_char, trim_char_chars,
    trim_chars, words,
};

verus! {

// ── agent frontmatter ───────────────────────────────────────────────────

/// The state of the `tools:` reader: the tools so far and whether a block
/// list is open.
pub struct ToolScan {
    pub tools: Seq<Seq<char>>,
    pub in_tools: bool,
}

/// One entry of an inline list, unquoted.
pub open spec fn quoted_item(s: Seq<char>) -> Seq<char> {
    trim_char(trim_char(trim(s), '"'), '\'')
}

/// The non-empty entries of `items` after `clean`.
pub open spec fn nonempty_items(items: Seq<Seq<char>>, quoted: bool) -> Seq<Seq<char>>
    decreases items.len(),
{
    if items.len() == 0 {
        seq![]
    } else {
        let rest = nonempty_items(items.drop_last(), quoted);
        let p = if quoted {
            quoted_item(items.last())
        } else {
            trim(items.last())
        };
        if p.len() == 0 {
            rest
        } else {
            rest.push(p)
        }
    }
}

/// One frontmatter line. `tools: [a, "b"]` and `tools: a, b` set the list;
/// a bare `tools:` opens a block of `- item` lines, closed by the first
/// other non-empty line.
pub open spec fn tools_step(st: ToolScan, line: Seq<char>) -> ToolScan {
    let t = trim(line);
    if starts_with(t, "tools:"@) {
        let rest = trim(t.skip(6));
        if starts_with(rest, "["@) && rest.len() >= 2 && rest.last() == ']' {
            ToolScan {
                tools: nonempty_items(split_char(rest.subrange(1, rest.len() - 1), ','), true),
                in_tools: false,
            }
        } else if rest.len() > 0 {
            ToolScan { tools: nonempty_items(split_char(rest, ','), false), in_tools: false }
        } else {
            ToolScan { tools: st.tools, in_tools: true }
        }
    } else if st.in_tools {
        if starts_with(t, "-"@) {
            ToolScan { tools: st.tools.push(trim(t.skip(1))), in_tools: true }
        } else if t.len() > 0 {
            ToolScan { tools: st.tools, in_tools: false }
        } else {
            st
        }
    } else {
        st
    }
}

pub open spec fn tools_scan(ls: Seq<Seq<char>>) -> ToolScan
    decreases ls.len(),
{
    if ls.len() == 0 {
        ToolScan { tools: seq![], in_tools: false }
    } else {
        tools_step(tools_scan(ls.drop_last()), ls.last())
    }
}

/// The `tools:` list of an agent frontmatter block.
pub open spec fn agent_tools(fm: Seq<char>) -> Seq<Seq<char>> {
    tools_scan(lines(fm)).tools
}

/// A tool name that reads back from a block list unchanged: no line break
/// and no surrounding whitespace.
pub open spec fn clean_tool(t: Seq<char>) -> bool {
    &&& forall|j: int| 0 <= j < t.len() ==> #[trigger] t[j] != '\n'
    &&& t.len() == 0 || (!is_ws(t[0]) && !is_ws(t.last()))
}

/// The block-list line that names one tool.
pub open spec fn tool_item_line(t: Seq<char>) -> Seq<char> {
    "  - "@ + t
}

proof fn lemma_tool_item_reads_back(st: ToolScan, t: Seq<char>)
    requires
        st.in_tools,
        clean_tool(t),
    ensures
        tools_step(st, tool_item_line(t)) == (ToolScan { tools: st.tools.push(t), in_tools: true }),
{
    reveal_strlit("  - ");
    reveal_strlit("-");
    reveal_strlit("tools:");
    let line = tool_item_line(t);
    let tr = trim(line);
    assert(line[2] == '-');
    lemma_lead_ws_at(line, 2);
    let after = line.skip(2);
    if t.len() == 0 {
        assert(after =~= seq!['-', ' ']);
        lemma_trail_ws_at(after, 1);
        assert(tr =~= seq!['-']);
        assert(tr.skip(1) =~= Seq::<char>::empty());
        assert(trim(tr.skip(1)) =~= t);
    } else {
        assert(after =~= seq!['-', ' '] + t);
        assert(after.last() == t.last());
        lemma_trail_ws_at(after, after.len() as int);
        assert(after.take(after.len() as int) =~= after);
        assert(tr =~= seq!['-', ' '] + t);
        let rest = tr.skip(1);
        assert(rest =~= seq![' '] + t);
        lemma_lead_ws_at(rest, 1);
        assert(rest.skip(1) =~= t);
        lemma_trail_ws_at(t, t.len() as int);
        assert(t.take(t.len() as int) =~= t);
    }
    assert(starts_with(tr, "-"@)) by {
        assert(tr.take(1) =~= "-"@);
    }
    assert(!starts_with(tr, "tools:"@)) by {
        if tr.len() >= 6 {
            assert(tr.take(6)[0] == '-');
        }
    }
}

/// A block list reads back: after a bare `tools:` line, the lines
/// `  - <tool>` give exactly those tools, in order, as
/// `serialize_agent_frontmatter` writes them.
pub proof fn lemma_agent_tools_round_trip(tools: Seq<Seq<char>>)
    requires
        forall|i: int| 0 <= i < tools.len() ==> clean_tool(#[trigger] tools[i]),
    ensures
        tools_scan(seq!["tools:"@] + tools.map_values(|t: Seq<char>| tool_item_line(t))) == (ToolScan {
            tools,
            in_tools: true,
        }),
    decreases tools.len(),
{
    reveal_strlit("tools:");
    let ls = seq!["tools:"@] + tools.map_values(|t: Seq<char>| tool_item_line(t));
    if tools.len() == 0 {
        let first = "tools:"@;
        lemma_lead_ws_at(first, 0);
        lemma_trail_ws_at(first, first.len() as int);
        assert(first.skip(0) =~= first);
        assert(first.take(first.len() as int) =~= first);
        assert(trim(first) == first);
        assert(starts_with(first, "tools:"@)) by {
            assert(first.take(6) =~= first);
        }
        assert(first.skip(6) =~= Seq::<char>::empty());
        let empty = Seq::<char>::empty();
        lemma_lead_ws_at(empty, 0);
        lemma_trail_ws_at(empty, 0);
        assert(trim(empty) =~= empty);
        reveal_strlit("[");
        assert(!starts_with(empty, "["@));
        assert(ls.drop_last() =~= Seq::<Seq<char>>::empty());
        assert(ls.last() == first);
        assert(tools_scan(ls.drop_last()) == (ToolScan { tools: seq![], in_tools: false }));
        assert(tools_step(ToolScan { tools: seq![], in_tools: false }, first) == (ToolScan {
            tools: seq![],
            in_tools: true,
        }));
        assert(tools =~= Seq::<Seq<char>>::empty());
    } else {
        let front = tools.drop_last();
        assert forall|i: int| 0 <= i < front.len() implies clean_tool(#[trigger] front[i]) by {
            assert(front[i] == tools[i]);
        }
        lemma_agent_tools_round_trip(front);
        assert(ls.drop_last() =~= seq!["tools:"@] + front.map_values(|t: Seq<char>| tool_item_line(t)));
        assert(clean_tool(tools[tools.len() - 1]));
        lemma_tool_item_reads_back(ToolScan { tools: front, in_tools: true }, tools.last());
        assert(ls.last() == tool_item_line(tools.last()));
        assert(tools_scan(ls.drop_last()) == (ToolScan { tools: front, in_tools: true }));
        assert(tools_scan(ls) == tools_step(tools_scan(ls.drop_last()), ls.last()));
        assert(front.push(tools.last()) =~= tools);
    }
}

/// The body of an agent frontmatter block: what stands between its two
/// `---` lines.
pub open spec fn frontmatter_body(tools: Seq<Seq<char>>) -> Seq<char> {
    "tools:\n"@ + join(tools.map_values(|t: Seq<char>| "  - "@ + t + "\n"@), seq![])
}

proof fn lemma_item_lines(tools: Seq<Seq<char>>)
    requires
        forall|i: int| 0 <= i < tools.len() ==> clean_tool(#[trigger] tools[i]),
    ensures
        lines(join(tools.map_values(|t: Seq<char>| "  - "@ + t + "\n"@), seq![])) == tools.map_values(
            |t: Seq<char>| tool_item_line(t),
        ),
    decreases tools.len(),
{
    reveal_strlit("  - ");
    reveal_strlit("\n");
    let parts = tools.map_values(|t: Seq<char>| "  - "@ + t + "\n"@);
    if tools.len() == 0 {
        assert(lines(join(parts, seq![])) =~= tools.map_values(|t: Seq<char>| tool_item_line(t)));
    } else {
        let t0 = tools[0];
        let a = tool_item_line(t0);
        assert(clean_tool(t0));
        assert forall|j: int| 0 <= j < a.len() implies #[trigger] a[j] != '\n' by {
            if j >= 4 {
                assert(a[j] == t0[j - 4]);
            }
        }
        assert(a.last() != '\r') by {
            if t0.len() > 0 {
                assert(a.last() == t0.last());
            }
        }
        let rest_tools = tools.drop_first();
        assert forall|i: int| 0 <= i < rest_tools.len() implies clean_tool(#[trigger] rest_tools[i]) by {
            assert(rest_tools[i] == tools[i + 1]);
        }
        lemma_item_lines(rest_tools);
        let rest_parts = rest_tools.map_values(|t: Seq<char>| "  - "@ + t + "\n"@);
        assert(parts.drop_first() =~= rest_parts);
        let tail = join(rest_parts, seq![]);
        if tools.len() >= 2 {
            lemma_join_first(parts, seq![]);
            assert(join(parts, seq![]) =~= a + "\n"@ + tail);
        } else {
            assert(rest_parts.len() == 0);
            assert(join(parts, seq![]) =~= a + "\n"@ + tail);
        }
        lemma_lines_cons(a, tail);
        assert(tools.map_values(|t: Seq<char>| tool_item_line(t)) =~= seq![a]
            + rest_tools.map_values(|t: Seq<char>| tool_item_line(t)));
    }
}

/// The agent frontmatter round trip on text: `serialize_agent_frontmatter`
/// writes `---`, the body, `---`; and `parse_agent_tools` reads the body
/// (what stands between the two `---` lines) back as the same tools, in
/// order, when no tool name holds a line break or surrounding whitespace.
pub proof fn lemma_agent_frontmatter_round_trip(tools: Seq<Seq<char>>)
    requires
        forall|i: int| 0 <= i < tools.len() ==> clean_tool(#[trigger] tools[i]),
    ensures
        agent_frontmatter(tools) == "---\n"@ + frontmatter_body(tools) + "---"@,
        agent_tools(frontmatter_body(tools)) == tools,
{
    reveal_strlit("---\ntools:\n");
    reveal_strlit("---\n");
    reveal_strlit("tools:\n");
    reveal_strlit("tools:");
    reveal_strlit("\n");
    let items = join(tools.map_values(|t: Seq<char>| "  - "@ + t + "\n"@), seq![]);
    assert(agent_frontmatter(tools) =~= "---\n"@ + frontmatter_body(tools) + "---"@);
    lemma_item_lines(tools);
    assert(frontmatter_body(tools) =~= "tools:"@ + "\n"@ + items);
    assert forall|j: int| 0 <= j < "tools:"@.len() implies #[trigger] "tools:"@[j] != '\n' by {}
    lemma_lines_cons("tools:"@, items);
    lemma_agent_tools_round_trip(tools);
}

/// A tool name that reads back from an inline list between quotes: not
/// empty, no comma or line break in it, and neither whitespace nor a quote
/// at either end.
pub open spec fn plain_tool_name(t: Seq<char>) -> bool {
    &&& t.len() > 0
    &&& forall|j: int| 0 <= j < t.len() ==> #[trigger] t[j] != ',' && t[j] != '\n'
    &&& !is_ws(t[0]) && !is_ws(t.last())
    &&& t[0] != '"' && t[0] != '\'' && t.last() != '"' && t.last() != '\''
}

/// `item` is `name` between double quotes or between single quotes.
pub open spec fn quoted_as(item: Seq<char>, name: Seq<char>) -> bool {
    item == seq!['"'] + name + seq!['"'] || item == seq!['\''] + name + seq!['\'']
}

/// An inline list entry, after the space that follows its comma when there
/// is one, reads back as the bare name.
proof fn lemma_quoted_item_reads_back(pre: Seq<char>, item: Seq<char>, name: Seq<char>)
    requires
        pre == Seq::<char>::empty() || pre == seq![' '],
        plain_tool_name(name),
        quoted_as(item, name),
    ensures
        quoted_item(pre + item) == name,
{
    let s = pre + item;
    let q = item[0];
    assert(item.last() == q);
    assert(!is_ws(q));
    if pre.len() == 0 {
        assert(s =~= item);
        lemma_trim_unchanged(item);
    } else {
        assert(is_ws(s[0]));
        assert(s[1] == q);
        lemma_lead_ws_at(s, 1);
        assert(s.skip(1) =~= item);
        lemma_trail_ws_at(item, item.len() as int);
        assert(item.take(item.len() as int) =~= item);
    }
    assert(trim(s) == item);
    if q == '"' {
        lemma_trim_char_enclosed(name, '"');
        lemma_trim_char_unchanged(name, '\'');
    } else {
        assert(item == seq!['\''] + name + seq!['\'']);
        lemma_trim_char_unchanged(item, '"');
        lemma_trim_char_enclosed(name, '\'');
    }
}

/// The characters of a quoted entry are its quotes and its name's.
proof fn lemma_quoted_chars(item: Seq<char>, name: Seq<char>)
    requires
        plain_tool_name(name),
        quoted_as(item, name),
    ensures
        forall|j: int| 0 <= j < item.len() ==> #[trigger] item[j] != ',' && item[j] != '\n',
{
    assert forall|j: int| 0 <= j < item.len() implies #[trigger] item[j] != ',' && item[j] != '\n' by {
        if 0 < j < item.len() - 1 {
            assert(item[j] == name[j - 1]);
        }
    }
}

/// The entries of an inline list body read back as their names.
proof fn lemma_inline_items(items: Seq<Seq<char>>, names: Seq<Seq<char>>)
    requires
        items.len() == names.len(),
        forall|i: int| 0 <= i < names.len() ==> plain_tool_name(#[trigger] names[i]),
        forall|i: int| 0 <= i < items.len() ==> quoted_as(#[trigger] items[i], names[i]),
    ensures
        nonempty_items(split_char(join(items, ", "@), ','), true) == names,
    decreases items.len(),
{
    reveal_strlit(", ");
    if items.len() == 0 {
        let e = Seq::<char>::empty();
        assert(join(items, ", "@) == e);
        lemma_split_char_none(e, ',');
        assert(seq![e].drop_last() =~= Seq::<Seq<char>>::empty());
        lemma_trim_unchanged(e);
        lemma_trim_char_unchanged(e, '"');
        lemma_trim_char_unchanged(e, '\'');
        assert(quoted_item(e) == e);
        let one = seq![e];
        assert(one.last() == e);
        assert(nonempty_items(Seq::<Seq<char>>::empty(), true) == Seq::<Seq<char>>::empty());
        assert(nonempty_items(seq![e], true) == Seq::<Seq<char>>::empty());
        assert(names =~= Seq::<Seq<char>>::empty());
    } else {
        let x = items.last();
        let name = names.last();
        assert(quoted_as(items[items.len() - 1], names[names.len() - 1]));
        assert(plain_tool_name(names[names.len() - 1]));
        lemma_quoted_chars(x, name);
        let front = items.drop_last();
        let nfront = names.drop_last();
        if items.len() == 1 {
            assert(join(items, ", "@) == items[0]);
            lemma_split_char_none(x, ',');
            let e = Seq::<char>::empty();
            lemma_quoted_item_reads_back(e, x, name);
            assert(e + x =~= x);
            assert(seq![x].drop_last() =~= Seq::<Seq<char>>::empty());
            assert(split_char(join(items, ", "@), ',') == seq![x]);
            let one = seq![x];
            assert(one.drop_last() =~= Seq::<Seq<char>>::empty());
            assert(one.last() == x);
            assert(nonempty_items(Seq::<Seq<char>>::empty(), true) == Seq::<Seq<char>>::empty());
            assert(quoted_item(x) == name);
            assert(nonempty_items(one, true) == Seq::<Seq<char>>::empty().push(name));
            assert(nonempty_items(seq![x], true) == seq![name]);
            assert(names =~= seq![name]);
        } else {
            assert forall|i: int| 0 <= i < nfront.len() implies plain_tool_name(#[trigger] nfront[i]) by {
                assert(nfront[i] == names[i]);
            }
            assert forall|i: int| 0 <= i < front.len() implies quoted_as(#[trigger] front[i], nfront[i]) by {
                assert(front[i] == items[i]);
                assert(nfront[i] == names[i]);
            }
            lemma_inline_items(front, nfront);
            let a = join(front, ", "@);
            let b = seq![' '] + x;
            assert(join(items, ", "@) == a + ", "@ + x);
            assert(a + ", "@ + x =~= a + seq![','] + b);
            lemma_split_char_concat(a, b, ',');
            assert forall|j: int| 0 <= j < b.len() implies #[trigger] b[j] != ',' by {
                if j > 0 {
                    assert(b[j] == x[j - 1]);
                }
            }
            lemma_split_char_none(b, ',');
            let pieces = split_char(a, ',') + seq![b];
            assert(pieces.drop_last() =~= split_char(a, ','));
            assert(pieces.last() == b);
            lemma_quoted_item_reads_back(seq![' '], x, name);
            assert(split_char(join(items, ", "@), ',') == pieces);
            assert(quoted_item(pieces.last()) == name);
            assert(nonempty_items(pieces, true) == nonempty_items(split_char(a, ','), true).push(
                name,
            ));
            assert(nfront.push(name) =~= names);
        }
    }
}

/// An inline list reads back unquoted: the frontmatter line
/// `tools: [i1, ..., in]`, each entry a tool name between double or single
/// quotes, gives exactly the names, in order, without their quotes.
pub proof fn lemma_inline_quoted_tools(items: Seq<Seq<char>>, names: Seq<Seq<char>>)
    requires
        items.len() == names.len(),
        forall|i: int| 0 <= i < names.len() ==> plain_tool_name(#[trigger] names[i]),
        forall|i: int| 0 <= i < items.len() ==> quoted_as(#[trigger] items[i], names[i]),
    ensures
        agent_tools("tools: ["@ + join(items, ", "@) + "]"@) == names,
{
    reveal_strlit("tools: [");
    reveal_strlit("tools:");
    reveal_strlit(", ");
    reveal_strlit("]");
    reveal_strlit("[");
    let body = join(items, ", "@);
    let l = "tools: ["@ + body + "]"@;
    assert forall|i: int, j: int| 0 <= i < items.len() && 0 <= j < items[i].len() implies #[trigger] items[i][j] != '\n' by {
        lemma_quoted_chars(items[i], names[i]);
    }
    lemma_join_without(items, ", "@, '\n');
    assert forall|j: int| 0 <= j < l.len() implies #[trigger] l[j] != '\n' by {
        if 8 <= j < 8 + body.len() {
            assert(l[j] == body[j - 8]);
        }
    }
    lemma_find_nl_at(l, l.len() as int);
    assert(lines(l) =~= seq![l]);
    assert(seq![l].drop_last() =~= Seq::<Seq<char>>::empty());
    assert(!is_ws(l[0]));
    assert(!is_ws(l.last()));
    lemma_trim_unchanged(l);
    assert(starts_with(l, "tools:"@)) by {
        assert(l.subrange(0, 6) =~= "tools:"@);
    }
    let r0 = l.skip(6);
    assert(r0 =~= seq![' ', '['] + body + seq![']']);
    lemma_lead_ws_at(r0, 1);
    let ts = r0.skip(1);
    assert(ts =~= seq!['['] + body + seq![']']);
    lemma_trail_ws_at(ts, ts.len() as int);
    assert(ts.take(ts.len() as int) =~= ts);
    let rest = trim(r0);
    assert(rest == ts);
    assert(starts_with(rest, "["@)) by {
        assert(rest.subrange(0, 1) =~= "["@);
    }
    assert(rest.subrange(1, rest.len() - 1) =~= body);
    lemma_inline_items(items, names);
}

fn items_of(s: &Vec<char>, quoted: bool) -> (out: Vec<String>)
    ensures
        string_seq(out@) == nonempty_items(split_char(s@, ','), quoted),
{
    let items = split_at_char(s, ',');
    let ghost all = items.deep_view();
    let mut out: Vec<String> = Vec::new();
    let mut i: usize = 0;
    proof {
        assert(all.take(0) =~= Seq::<Seq<char>>::empty());
        assert(string_seq(out@) =~= Seq::<Seq<char>>::empty());
    }
    while i < items.len()
        invariant
            i <= items@.len(),
            all == items.deep_view(),
            all == split_char(s@, ','),
            string_seq(out@) == nonempty_items(all.take(i as int), quoted),
        decreases items.len() - i,
    {
        proof {
            lemma_deep_view_chars(items@[i as int]);
            assert(all.take(i + 1).drop_last() =~= all.take(i as int));
            assert(all.take(i + 1).last() == items@[i as int]@);
        }
        let p = if quoted {
            trim_char_chars(&trim_char_chars(&trim_chars(&items[i]), '"'), '\'')
        } else {
            trim_chars(&items[i])
        };
        if p.len() > 0 {
            let ghost before = out@;
            out.push(string_of(&p));
            proof {
                assert(string_seq(out@) =~= string_seq(before).push(p@));
            }
        }
        i = i + 1;
    }
    proof {
        assert(all.take(i as int) =~= all);
    }
    out
}

/// Parses the `tools:` list out of an agent frontmatter block. Only `tools`
/// maps onto the canonical `Agent` model; other fields are ignored.
pub fn parse_agent_tools(fm: &str) -> (tools: Vec<String>)
    ensures
        string_seq(tools@) == agent_tools(fm@),
{
    let chars = chars_of(fm);
    let ls = split_lines(&chars);
    let ghost all = ls.deep_view();
    let mut tools: Vec<String> = Vec::new();
    let mut in_tools = false;
    let mut i: usize = 0;
    proof {
        assert(all.take(0) =~= Seq::<Seq<char>>::empty());
        assert(string_seq(tools@) =~= Seq::<Seq<char>>::empty());
    }
    while i < ls.len()
        invariant
            i <= ls@.len(),
            all == ls.deep_view(),
            all == lines(fm@),
            tools_scan(all.take(i as int)) == (ToolScan { tools: string_seq(tools@), in_tools }),
        decreases ls.len() - i,
    {
        proof {
            lemma_deep_view_chars(ls@[i as int]);
            assert(all.take(i + 1).drop_last() =~= all.take(i as int));
            assert(all.take(i + 1).last() == ls@[i as int]@);
        }
        let t = trim_chars(&ls[i]);
        proof {
            reveal_strlit("tools:");
            reveal_strlit("-");
        }
        if starts_with_str(&t, "tools:") {
            let rest = trim_chars(&slice_chars(&t, 6, t.len()));
            proof {
                assert(t@.skip(6) =~= t@.subrange(6, t@.len() as int));
            }
            if starts_with_str(&rest, "[") && rest.len() >= 2 && rest[rest.len() - 1] == ']' {
                let inner = slice_chars(&rest, 1, rest.len() - 1);
                tools = items_of(&inner, true);
                in_tools = false;
            } else if rest.len() > 0 {
                tools = items_of(&rest, false);
                in_tools = false;
            } else {
                in_tools = true;
            }
        } else if in_tools {
            if starts_with_str(&t, "-") {
                let item = trim_chars(&slice_chars(&t, 1, t.len()));
                proof {
                    assert(t@.skip(1) =~= t@.subrange(1, t@.len() as int));
                }
                let ghost before = tools@;
                tools.push(string_of(&item));
                proof {
                    assert(string_seq(tools@) =~= string_seq(before).push(item@));
                }
            } else if t.len() > 0 {
                in_tools = false;
            }
        }
        i = i + 1;
    }
    proof {
        assert(all.take(i as int) =~= all);
    }
    tools
}

/// A frontmatter block that lists `tools` as a block list.
pub open spec fn agent_frontmatter(tools: Seq<Seq<char>>) -> Seq<char> {
    "---\ntools:\n"@ + join(tools.map_values(|t: Seq<char>| "  - "@ + t + "\n"@), seq![]) + "---"@
}

/// Writes the agent frontmatter for `tools`.
pub fn serialize_agent_frontmatter(tools: &[String]) -> (fm: String)
    ensures
        fm@ == agent_frontmatter(string_seq(tools@)),
{
    let ghost items = string_seq(tools@).map_values(|t: Seq<char>| "  - "@ + t + "\n"@);
    let mut body: Vec<char> = Vec::new();
    let mut i: usize = 0;
    proof {
        assert(items.take(0) =~= Seq::<Seq<char>>::empty());
    }
    while i < tools.len()
        invariant
            i <= tools@.len(),
            items == string_seq(tools@).map_values(|t: Seq<char>| "  - "@ + t + "\n"@),
            body@ == join(items.take(i as int), seq![]),
        decreases tools.len() - i,
    {
        let mut entry = chars_of("  - ");
        append_str(&mut entry, tools[i].as_str());
        append_str(&mut entry, "\n");
        proof {
            crate::text::lemma_join_push(items.take(i as int), seq![], items[i as int]);
            assert(items.take(i as int).push(items[i as int]) =~= items.take(i + 1));
            assert(entry@ == items[i as int]);
        }
        append_chars(&mut body, &entry);
        proof {
            if i > 0 {
                assert(body@ =~= join(items.take(i as int), seq![]) + seq![] + entry@);
            }
        }
        i = i + 1;
    }
    proof {
        assert(items.take(i as int) =~= items);
    }
    let mut fm = chars_of("---\ntools:\n");
    append_chars(&mut fm, &body);
    append_str(&mut fm, "---");
    string_of(&fm)
}

// ── projection ──────────────────────────────────────────────────────────

/// Where a tool keeps its files: its id in skill and agent targets, its
/// memory file at the tool root (and the id of the skill made of it), its config directory (holding
/// `skills/<slug>/SKILL.md` and `agents/<slug>.md`), and the id prefixes
/// that mark skill files and agent bodies.
pub struct ToolLayout {
    pub tool_id: String,
    pub memory_name: String,
    pub memory_id: String,
    pub config_dir: String,
    pub skill_prefix: String,
    pub agent_prefix: String,
}

/// One file a projection writes: its path relative to the tool root, its
/// full path and its content.
pub struct PlannedFile {
    pub rel: String,
    pub path: String,
    pub content: String,
}

/// The views of planned files.
pub open spec fn plan_views(v: Seq<PlannedFile>) -> Seq<(Seq<char>, Seq<char>, Seq<char>)> {
    v.map_values(|f: PlannedFile| (f.rel@, f.path@, f.content@))
}

/// The skill that every tool with a skills directory receives as a file.
pub open spec fn worklog_id() -> Seq<char> {
    "obsidian-session-worklog"@
}

/// A skill whose body goes into the memory file rather than a file of its
/// own.
pub open spec fn is_memory_id(id: Seq<char>, skill_prefix: Seq<char>, agent_prefix: Seq<char>) -> bool {
    !starts_with(id, skill_prefix) && !starts_with(id, agent_prefix) && id != worklog_id()
}

/// A skill projected as `<config_dir>/skills/<slug>/SKILL.md`.
pub open spec fn is_skill_file_id(id: Seq<char>, skill_prefix: Seq<char>) -> bool {
    starts_with(id, skill_prefix) || id == worklog_id()
}

/// The sources of the tool's skills whose bodies form its memory file.
pub open spec fn memory_sources(
    skills: Seq<Skill>,
    tool: Seq<char>,
    skill_prefix: Seq<char>,
    agent_prefix: Seq<char>,
) -> Seq<Seq<char>>
    decreases skills.len(),
{
    if skills.len() == 0 {
        seq![]
    } else {
        let rest = memory_sources(skills.drop_last(), tool, skill_prefix, agent_prefix);
        let s = skills.last();
        if targets_tool(s.targets@, tool) && is_memory_id(s.id@, skill_prefix, agent_prefix) {
            rest.push(s.source@)
        } else {
            rest
        }
    }
}

/// The slug a skill file is projected under: the id without the skill
/// prefix (the whole id when it has none).
pub open spec fn skill_slug(id: Seq<char>, skill_prefix: Seq<char>) -> Seq<char> {
    if starts_with(id, skill_prefix) {
        id.skip(skill_prefix.len() as int)
    } else {
        id
    }
}

/// The source of the first skill of the tool with the given id, or the
/// empty body.
pub open spec fn companion_body(skills: Seq<Skill>, tool: Seq<char>, id: Seq<char>) -> Seq<char>
    decreases skills.len(),
{
    if skills.len() == 0 {
        seq![]
    } else if targets_tool(skills[0].targets@, tool) && skills[0].id@ == id {
        skills[0].source@
    } else {
        companion_body(skills.drop_first(), tool, id)
    }
}

/// The projected agent file: header, frontmatter, a blank line, the body.
pub open spec fn agent_doc(tools: Seq<Seq<char>>, body: Seq<char>) -> Seq<char> {
    generated_header() + agent_frontmatter(tools) + "\n\n"@ + body
}

/// Where a skill file goes, relative to the tool root.
pub open spec fn skill_rel_path(config_dir: Seq<char>, id: Seq<char>, skill_prefix: Seq<char>) -> Seq<
    char,
> {
    config_dir + "/skills/"@ + skill_slug(id, skill_prefix) + "/SKILL.md"@
}

/// Where an agent file goes, relative to the tool root.
pub open spec fn agent_rel_path(config_dir: Seq<char>, slug: Seq<char>) -> Seq<char> {
    config_dir + "/agents/"@ + slug + ".md"@
}

proof fn lemma_contains_shift(a: Seq<Seq<char>>, b: Seq<Seq<char>>, x: Seq<char>)
    ensures
        b.contains(x) ==> (a + b).contains(x),
        a.contains(x) ==> (a + b).contains(x),
{
    if b.contains(x) {
        let j = choose|j: int| 0 <= j < b.len() && b[j] == x;
        assert((a + b)[a.len() + j] == x);
    }
    if a.contains(x) {
        let j = choose|j: int| 0 <= j < a.len() && a[j] == x;
        assert((a + b)[j] == x);
    }
}

/// Path traversal in a skill slug is refused: when a component of the slug
/// is `..`, the skill's file path leaves the tool root, so `safe_join`
/// refuses it and nothing is written.
pub proof fn lemma_traversing_skill_slug_escapes(config_dir: Seq<char>, slug: Seq<char>)
    requires
        split_char(slug, '/').contains(".."@),
    ensures
        escapes_root(config_dir + "/skills/"@ + slug + "/SKILL.md"@),
{
    reveal_strlit("/skills/");
    reveal_strlit("/SKILL.md");
    reveal_strlit("skills");
    reveal_strlit("SKILL.md");
    let tail = slug + seq!['/'] + "SKILL.md"@;
    let mid = "skills"@ + seq!['/'] + tail;
    let whole = config_dir + seq!['/'] + mid;
    assert(whole =~= config_dir + "/skills/"@ + slug + "/SKILL.md"@);
    lemma_split_char_concat(slug, "SKILL.md"@, '/');
    lemma_split_char_concat("skills"@, tail, '/');
    lemma_split_char_concat(config_dir, mid, '/');
    lemma_contains_shift(split_char(slug, '/'), split_char("SKILL.md"@, '/'), ".."@);
    lemma_contains_shift(split_char("skills"@, '/'), split_char(tail, '/'), ".."@);
    lemma_contains_shift(split_char(config_dir, '/'), split_char(mid, '/'), ".."@);
}

/// Path traversal in an agent slug is refused: when a `..` component of the
/// slug is followed by a further `/`, the agent's file path leaves the tool
/// root. (A trailing `..` becomes `...md`, an ordinary file name.)
pub proof fn lemma_traversing_agent_slug_escapes(config_dir: Seq<char>, front: Seq<char>, back: Seq<char>)
    requires
        split_char(front, '/').contains(".."@),
    ensures
        escapes_root(agent_rel_path(config_dir, front + "/"@ + back)),
{
    reveal_strlit("/agents/");
    reveal_strlit("agents");
    reveal_strlit("/");
    let last = back + ".md"@;
    let tail = front + seq!['/'] + last;
    let mid = "agents"@ + seq!['/'] + tail;
    let whole = config_dir + seq!['/'] + mid;
    assert(whole =~= agent_rel_path(config_dir, front + "/"@ + back));
    lemma_split_char_concat(front, last, '/');
    lemma_split_char_concat("agents"@, tail, '/');
    lemma_split_char_concat(config_dir, mid, '/');
    lemma_contains_shift(split_char(front, '/'), split_char(last, '/'), ".."@);
    lemma_contains_shift(split_char("agents"@, '/'), split_char(tail, '/'), ".."@);
    lemma_contains_shift(split_char(config_dir, '/'), split_char(mid, '/'), ".."@);
}

/// The command and arguments of an MCP server's command line: the line split
/// at whitespace; `None` when it is blank.
pub open spec fn command_parts_of(line: Seq<char>) -> Option<(Seq<char>, Seq<Seq<char>>)> {
    let w = words(line);
    if w.len() == 0 {
        None
    } else {
        Some((w[0], w.skip(1)))
    }
}

/// Splits an MCP server's command line into the command and its arguments.
pub fn command_parts(line: &str) -> (cmd: Option<(String, Vec<String>)>)
    ensures
        command_parts_of(line@) is None ==> cmd is None,
        command_parts_of(line@) matches Some(c) ==> (cmd matches Some(r) && r.0@ == c.0
            && string_seq(r.1@) == c.1),
{
    let chars = chars_of(line);
    let parts = split_words(&chars);
    if parts.len() == 0 {
        return None;
    }
    let ghost all = parts.deep_view();
    proof {
        lemma_deep_view_chars(parts@[0]);
    }
    let command = string_of(&parts[0]);
    let mut args: Vec<String> = Vec::new();
    let mut i: usize = 1;
    proof {
        assert(string_seq(args@) =~= all.subrange(1, 1));
    }
    while i < parts.len()
        invariant
            1 <= i <= parts@.len(),
            all == parts.deep_view(),
            string_seq(args@) == all.subrange(1, i as int),
        decreases parts.len() - i,
    {
        proof {
            lemma_deep_view_chars(parts@[i as int]);
        }
        let ghost before = args@;
        let a = string_of(&parts[i]);
        args.push(a);
        proof {
            assert(all[i as int] == parts@[i as int]@);
            assert(string_seq(args@) =~= string_seq(before).push(a@));
            assert(string_seq(args@) =~= all.subrange(1, i + 1));
        }
        i = i + 1;
    }
    proof {
        assert(all.subrange(1, i as int) =~= all.skip(1));
    }
    Some((command, args))
}

/// One server entry of a tool's MCP config: its id, the command and its
/// arguments, and the placeholder variables its environment must carry.
pub struct McpEntry {
    pub id: String,
    pub command: String,
    pub args: Vec<String>,
    pub env_placeholders: Vec<String>,
}

/// The views of MCP entries.
pub open spec fn entry_views(v: Seq<McpEntry>) -> Seq<
    (Seq<char>, Seq<char>, Seq<Seq<char>>, Seq<Seq<char>>),
> {
    v.map_values(
        |e: McpEntry| (e.id@, e.command@, string_seq(e.args@), string_seq(e.env_placeholders@)),
    )
}

/// The entries a projection writes for the servers that target `tool`, in
/// order; a server whose command line is blank is skipped.
pub open spec fn mcp_plan(tool: Seq<char>, servers: Seq<McpServer>) -> Seq<
    (Seq<char>, Seq<char>, Seq<Seq<char>>, Seq<Seq<char>>),
>
    decreases servers.len(),
{
    if servers.len() == 0 {
        seq![]
    } else {
        let rest = mcp_plan(tool, servers.drop_last());
        let s = servers.last();
        if targets_tool(s.targets@, tool) {
            match command_parts_of(s.command_or_url@) {
                Some(c) => rest.push((s.id@, c.0, c.1, string_seq(s.env_placeholders@))),
                None => rest,
            }
        } else {
            rest
        }
    }
}

fn copy_strings(v: &Vec<String>) -> (out: Vec<String>)
    ensures
        string_seq(out@) == string_seq(v@),
{
    let mut out: Vec<String> = Vec::new();
    let mut i: usize = 0;
    while i < v.len()
        invariant
            i <= v@.len(),
            string_seq(out@) == string_seq(v@).take(i as int),
        decreases v.len() - i,
    {
        let ghost before = out@;
        let c = owned_copy(&v[i]);
        out.push(c);
        proof {
            assert(string_seq(out@) =~= string_seq(before).push(c@));
            assert(string_seq(v@).take(i + 1) =~= string_seq(v@).take(i as int).push(v@[i as int]@));
        }
        i = i + 1;
    }
    proof {
        assert(string_seq(v@).take(i as int) =~= string_seq(v@));
    }
    out
}

fn owned_copy(s: &String) -> (c: String)
    ensures
        c@ == s@,
{
    let v = chars_of(s.as_str());
    string_of(&v)
}

/// The MCP config entries for the servers that target `tool`.
pub fn mcp_entries(tool: &str, servers: &[McpServer]) -> (entries: Vec<McpEntry>)
    ensures
        entry_views(entries@) == mcp_plan(tool@, servers@),
{
    let mut out: Vec<McpEntry> = Vec::new();
    let mut i: usize = 0;
    proof {
        assert(servers@.take(0) =~= Seq::<McpServer>::empty());
        assert(entry_views(out@) =~= mcp_plan(tool@, servers@.take(0)));
    }
    while i < servers.len()
        invariant
            i <= servers@.len(),
            entry_views(out@) == mcp_plan(tool@, servers@.take(i as int)),
        decreases servers.len() - i,
    {
        proof {
            assert(servers@.take(i + 1).drop_last() =~= servers@.take(i as int));
            assert(servers@.take(i + 1).last() == servers@[i as int]);
        }
        let s = &servers[i];
        if crate::adapters::paths::targets_contains(&s.targets, tool) {
            if let Some((command, args)) = command_parts(s.command_or_url.as_str()) {
                let ghost before = entry_views(out@);
                let e = McpEntry {
                    id: owned_copy(&s.id),
                    command,
                    args,
                    env_placeholders: copy_strings(&s.env_placeholders),
                };
                out.push(e);
                proof {
                    assert(entry_views(out@) =~= before.push(entry_views(out@).last()));
                }
            }
        }
        i = i + 1;
    }
    proof {
        assert(servers@.take(i as int) =~= servers@);
    }
    out
}

/// The placeholder variables an MCP server entry still lacks: each name in
/// `placeholders` that is neither among the entry's `existing` variables nor
/// earlier in `placeholders`, in order. Each gets an empty value, so values
/// a user filled in are never overwritten.
pub open spec fn missing_env_keys(existing: Seq<Seq<char>>, placeholders: Seq<Seq<char>>) -> Seq<
    Seq<char>,
>
    decreases placeholders.len(),
{
    if placeholders.len() == 0 {
        seq![]
    } else {
        let rest = missing_env_keys(existing, placeholders.drop_last());
        let k = placeholders.last();
        if existing.contains(k) || rest.contains(k) {
            rest
        } else {
            rest.push(k)
        }
    }
}

fn listed(v: &Vec<String>, k: &String) -> (b: bool)
    ensures
        b == string_seq(v@).contains(k@),
{
    let mut i: usize = 0;
    while i < v.len()
        invariant
            i <= v@.len(),
            forall|j: int| 0 <= j < i ==> #[trigger] string_seq(v@)[j] != k@,
        decreases v.len() - i,
    {
        let a = chars_of(v[i].as_str());
        let b = chars_of(k.as_str());
        if equals_chars(&a, &b) {
            assert(string_seq(v@)[i as int] == k@);
            return true;
        }
        i = i + 1;
    }
    false
}

/// The placeholder variables to add, with empty values, to an MCP server
/// entry whose environment already has `existing`.
pub fn missing_env(existing: &Vec<String>, placeholders: &Vec<String>) -> (keys: Vec<String>)
    ensures
        string_seq(keys@) == missing_env_keys(string_seq(existing@), string_seq(placeholders@)),
{
    let mut out: Vec<String> = Vec::new();
    let mut i: usize = 0;
    let ghost ph = string_seq(placeholders@);
    proof {
        assert(ph.take(0) =~= Seq::<Seq<char>>::empty());
        assert(string_seq(out@) =~= Seq::<Seq<char>>::empty());
    }
    while i < placeholders.len()
        invariant
            i <= placeholders@.len(),
            ph == string_seq(placeholders@),
            string_seq(out@) == missing_env_keys(string_seq(existing@), ph.take(i as int)),
        decreases placeholders.len() - i,
    {
        proof {
            assert(ph.take(i + 1).drop_last() =~= ph.take(i as int));
            assert(ph.take(i + 1).last() == placeholders@[i as int]@);
        }
        let k = &placeholders[i];
        if !listed(existing, k) && !listed(&out, k) {
            let ghost before = out@;
            out.push(k.clone());
            proof {
                assert(out@.last() == *k);
                assert(string_seq(out@) =~= string_seq(before).push(k@));
            }
        }
        i = i + 1;
    }
    proof {
        assert(ph.take(i as int) =~= ph);
    }
    out
}

// ── import ──────────────────────────────────────────────────────────────

/// One entry of a directory listing as the caller read it: its name, whether
/// the entry itself is a symbolic link, and the file's text with the hash of
/// the text the skill keeps (`None` when there is no such file).
pub open spec fn listing_views(v: Seq<(String, bool, Option<(String, String)>)>) -> Seq<
    (Seq<char>, bool, Option<(Seq<char>, Seq<char>)>),
> {
    v.map_values(
        |e: (String, bool, Option<(String, String)>)|
            (
                e.0@,
                e.1,
                match e.2 {
                    Some(c) => Some((c.0@, c.1@)),
                    None => None,
                },
            ),
    )
}

/// The mathematical value of an agent: slug, tools, model hints, targets.
pub type AgentV = (Seq<char>, Seq<Seq<char>>, Seq<Seq<char>>, Seq<Seq<char>>);

pub open spec fn agent_view(a: Agent) -> AgentV {
    (a.slug@, string_seq(a.tools@), string_seq(a.model_hints@), string_seq(a.targets@))
}

/// An agent file an import reads: a `.md` file that is not a symbolic
/// link and could be read.
pub open spec fn is_agent_entry(e: (Seq<char>, bool, Option<(Seq<char>, Seq<char>)>)) -> bool {
    !e.1 && extension_of(e.0) == Some("md"@) && e.2 is Some
}

/// The tools named by an agent's frontmatter, if it has one.
pub open spec fn tools_of(fm: Option<Seq<char>>) -> Seq<Seq<char>> {
    match fm {
        Some(f) => agent_tools(f),
        None => seq![],
    }
}

/// What a tool's import found: skills, agents, and the MCP server table
/// entries `(id, entry)` of its settings and its `.mcp.json`.
pub struct ToolImport {
    pub skills: Vec<Skill>,
    pub agents: Vec<Agent>,
    pub servers: Vec<(String, Json)>,
}

// ── frontmatter ─────────────────────────────────────────────────────────

/// Index of the first line from `from` on that is exactly `---`, or
/// `ls.len()`.
pub open spec fn fence_from(ls: Seq<Seq<char>>, from: int) -> int
    decreases ls.len() - from,
{
    if from >= ls.len() || from < 0 {
        ls.len() as int
    } else if ls[from] == "---"@ {
        from
    } else {
        fence_from(ls, from + 1)
    }
}

/// A document split into its frontmatter and body: when its first line is
/// `---` and a later line is `---`, the lines between them and the lines
/// after the closing one (each joined by newlines); otherwise no
/// frontmatter and the whole text.
pub open spec fn frontmatter_split(text: Seq<char>) -> (Option<Seq<char>>, Seq<char>) {
    let ls = lines(text);
    let j = fence_from(ls, 1);
    if ls.len() > 0 && ls[0] == "---"@ && j < ls.len() {
        (Some(join(ls.subrange(1, j), "\n"@)), join(ls.skip(j + 1), "\n"@))
    } else {
        (None, text)
    }
}

proof fn lemma_fence_from_at(ls: Seq<Seq<char>>, from: int, j: int)
    requires
        0 <= from <= j <= ls.len(),
        forall|k: int| from <= k < j ==> #[trigger] ls[k] != "---"@,
        j == ls.len() || ls[j] == "---"@,
    ensures
        fence_from(ls, from) == j,
    decreases j - from,
{
    if from < j {
        lemma_fence_from_at(ls, from + 1, j);
    }
}

fn lines_between(ls: &Vec<Vec<char>>, lo: usize, hi: usize) -> (out: Vec<Vec<char>>)
    requires
        lo <= hi <= ls@.len(),
    ensures
        out.deep_view() == ls.deep_view().subrange(lo as int, hi as int),
{
    let mut out: Vec<Vec<char>> = Vec::new();
    let mut i: usize = lo;
    proof {
        assert(out.deep_view() =~= ls.deep_view().subrange(lo as int, lo as int));
    }
    while i < hi
        invariant
            lo <= i <= hi <= ls@.len(),
            out.deep_view() == ls.deep_view().subrange(lo as int, i as int),
        decreases hi - i,
    {
        let c = slice_chars(&ls[i], 0, ls[i].len());
        let ghost before = out;
        out.push(c);
        proof {
            lemma_deep_view_push(before, out, c);
            assert(c@ =~= ls@[i as int]@);
            assert(ls.deep_view()[i as int] == ls@[i as int]@);
            assert(out.deep_view() =~= ls.deep_view().subrange(lo as int, i + 1));
        }
        i = i + 1;
    }
    out
}

/// Splits a document into its frontmatter (if any) and body.
pub fn split_frontmatter(text: &str) -> (r: (Option<String>, String))
    ensures
        ({
            let f = frontmatter_split(text@);
            &&& (r.0 matches Some(m) ==> f.0 == Some(m@))
            &&& (r.0 is None ==> f.0 is None)
            &&& r.1@ == f.1
        }),
{
    let chars = chars_of(text);
    let ls = split_lines(&chars);
    let ghost lv = ls.deep_view();
    if ls.len() == 0 || !equals_str(&ls[0], "---") {
        proof {
            if ls.len() > 0 {
                assert(lv[0] == ls@[0]@);
            }
        }
        return (None, string_of(&chars));
    }
    proof {
        assert(lv[0] == ls@[0]@);
    }
    let mut j: usize = 1;
    while j < ls.len() && !equals_str(&ls[j], "---")
        invariant
            1 <= j <= ls@.len(),
            lv == ls.deep_view(),
            forall|k: int| 1 <= k < j ==> #[trigger] lv[k] != "---"@,
        decreases ls.len() - j,
    {
        assert(lv[j as int] == ls@[j as int]@);
        j = j + 1;
    }
    proof {
        if j < ls@.len() {
            assert(lv[j as int] == ls@[j as int]@);
        }
        lemma_fence_from_at(lv, 1, j as int);
    }
    if j == ls.len() {
        return (None, string_of(&chars));
    }
    let fm = crate::text::join_chars(&lines_between(&ls, 1, j), "\n");
    let body = crate::text::join_chars(&lines_between(&ls, j + 1, ls.len()), "\n");
    proof {
        assert(lv.subrange(j + 1, lv.len() as int) =~= lv.skip(j + 1));
    }
    (Some(string_of(&fm)), string_of(&body))
}

impl ToolLayout {
    /// The skills of the tool's skill directories, in listing order: one
    /// per directory that is not a symbolic link and holds `SKILL.md`.
    pub open spec fn dir_skills(self, dirs: Seq<(Seq<char>, bool, Option<(Seq<char>, Seq<char>)>)>) -> Seq<
        SkillV,
    >
        decreases dirs.len(),
    {
        if dirs.len() == 0 {
            seq![]
        } else {
            let prev = self.dir_skills(dirs.drop_last());
            let e = dirs.last();
            if !e.1 && e.2 is Some {
                let c = e.2->0;
                prev.push(
                    (
                        self.skill_prefix@ + e.0,
                        "1.0.0"@,
                        seq!["*"@],
                        seq![self.tool_id@],
                        trim(provenance_stripped(c.0)),
                        c.1,
                    ),
                )
            } else {
                prev
            }
        }
    }

    /// The agents of the tool's agent files, in listing order.
    pub open spec fn file_agents(self, files: Seq<(Seq<char>, bool, Option<(Seq<char>, Seq<char>)>)>) -> Seq<
        AgentV,
    >
        decreases files.len(),
    {
        if files.len() == 0 {
            seq![]
        } else {
            let prev = self.file_agents(files.drop_last());
            let e = files.last();
            if is_agent_entry(e) {
                let c = e.2->0;
                let fm = frontmatter_split(provenance_stripped(c.0)).0;
                prev.push((stem_of(e.0), tools_of(fm), seq![], seq![self.tool_id@]))
            } else {
                prev
            }
        }
    }

    /// The companion skills of the tool's agent files (their bodies), in
    /// listing order.
    pub open spec fn agent_skills(self, files: Seq<(Seq<char>, bool, Option<(Seq<char>, Seq<char>)>)>) -> Seq<
        SkillV,
    >
        decreases files.len(),
    {
        if files.len() == 0 {
            seq![]
        } else {
            let prev = self.agent_skills(files.drop_last());
            let e = files.last();
            if is_agent_entry(e) {
                let c = e.2->0;
                let body = frontmatter_split(provenance_stripped(c.0)).1;
                prev.push(
                    (
                        self.agent_prefix@ + stem_of(e.0),
                        "1.0.0"@,
                        seq!["*"@],
                        seq![self.tool_id@],
                        trim(body),
                        c.1,
                    ),
                )
            } else {
                prev
            }
        }
    }

    /// What importing the tool gives: the memory skill (from the memory
    /// file), the skills of its skill directories, the companion skills of
    /// its agents; its agents; and the MCP server entries of its settings
    /// and of `.mcp.json`. A config file that is not JSON is an error.
    pub open spec fn import_spec(
        self,
        memory: Option<(Seq<char>, Seq<char>)>,
        dirs: Seq<(Seq<char>, bool, Option<(Seq<char>, Seq<char>)>)>,
        files: Seq<(Seq<char>, bool, Option<(Seq<char>, Seq<char>)>)>,
        settings: Option<Seq<char>>,
        mcp: Option<Seq<char>>,
    ) -> Result<(Seq<SkillV>, Seq<AgentV>, Seq<(Seq<char>, JsonV)>), Seq<char>> {
        let mem: Seq<SkillV> = match memory {
            Some(m) => seq![
                (
                    self.memory_id@,
                    "1.0.0"@,
                    seq!["*"@],
                    seq![self.tool_id@],
                    provenance_stripped(m.0),
                    m.1,
                ),
            ],
            None => seq![],
        };
        let skills = mem + self.dir_skills(dirs) + self.agent_skills(files);
        let from_settings: Result<Seq<(Seq<char>, JsonV)>, Seq<char>> = match settings {
            Some(t) => server_table_of(t, self.config_dir@ + "/settings.json"@),
            None => Ok(seq![]),
        };
        let from_mcp: Result<Seq<(Seq<char>, JsonV)>, Seq<char>> = match mcp {
            Some(t) => server_table_of(t, ".mcp.json"@),
            None => Ok(seq![]),
        };
        match from_settings {
            Err(m) => Err(m),
            Ok(a) => match from_mcp {
                Err(m) => Err(m),
                Ok(b) => Ok((skills, self.file_agents(files), a + b)),
            },
        }
    }
}

impl ToolLayout {
    /// The skill files of a projection, in skill order, up to the first one
    /// whose path would leave the root (then with the refusal message).
    pub open spec fn skill_plan(self, root: Seq<char>, skills: Seq<Skill>) -> (Seq<
        (Seq<char>, Seq<char>, Seq<char>),
    >, Option<Seq<char>>)
        decreases skills.len(),
    {
        if skills.len() == 0 {
            (seq![], None)
        } else {
            let prev = self.skill_plan(root, skills.drop_last());
            let s = skills.last();
            if prev.1 is Some {
                prev
            } else if targets_tool(s.targets@, self.tool_id@) && is_skill_file_id(
                s.id@,
                self.skill_prefix@,
            ) {
                let rel = skill_rel_path(self.config_dir@, s.id@, self.skill_prefix@);
                if escapes_root(rel) {
                    (prev.0, Some(outside_root_message(rel)))
                } else {
                    (prev.0.push((rel, path_join(root, rel), generated_header() + s.source@)), None)
                }
            } else {
                prev
            }
        }
    }

    /// The agent files of a projection, in agent order, up to the first one
    /// whose path would leave the root (then with the refusal message).
    pub open spec fn agent_plan(self, root: Seq<char>, agents: Seq<Agent>, skills: Seq<Skill>) -> (Seq<
        (Seq<char>, Seq<char>, Seq<char>),
    >, Option<Seq<char>>)
        decreases agents.len(),
    {
        if agents.len() == 0 {
            (seq![], None)
        } else {
            let prev = self.agent_plan(root, agents.drop_last(), skills);
            let a = agents.last();
            if prev.1 is Some {
                prev
            } else if targets_tool(a.targets@, self.tool_id@) {
                let rel = agent_rel_path(self.config_dir@, a.slug@);
                if escapes_root(rel) {
                    (prev.0, Some(outside_root_message(rel)))
                } else {
                    (
                        prev.0.push(
                            (
                                rel,
                                path_join(root, rel),
                                agent_doc(
                                    string_seq(a.tools@),
                                    companion_body(skills, self.tool_id@, self.agent_prefix@ + a.slug@),
                                ),
                            ),
                        ),
                        None,
                    )
                }
            } else {
                prev
            }
        }
    }

    /// The files a projection writes, in order: the memory file (when any
    /// memory skill targets the tool), the skill files, then the agent
    /// files; it stops at the first path that would leave the root, and
    /// then carries the refusal message. Files before it are still written.
    pub open spec fn plan_of(self, root: Seq<char>, skills: Seq<Skill>, agents: Seq<Agent>) -> (Seq<
        (Seq<char>, Seq<char>, Seq<char>),
    >, Option<Seq<char>>) {
        let m = memory_sources(skills, self.tool_id@, self.skill_prefix@, self.agent_prefix@);
        let memory = if m.len() > 0 {
            seq![(self.memory_name@, path_join(root, self.memory_name@), generated_doc(m))]
        } else {
            seq![]
        };
        let sp = self.skill_plan(root, skills);
        if sp.1 is Some {
            (memory + sp.0, sp.1)
        } else {
            let ap = self.agent_plan(root, agents, skills);
            (memory + sp.0 + ap.0, ap.1)
        }
    }

    /// The tool's MCP config after a projection: `None` when no server
    /// targets the tool (the file is left alone); else the existing
    /// `.mcp.json` (if there is one) with the tool's servers written in, as
    /// text; or the message of why it cannot be written.
    pub open spec fn mcp_text_of(self, existing: Option<Seq<char>>, servers: Seq<McpServer>) -> Result<
        Option<Seq<char>>,
        Seq<char>,
    > {
        if !(exists|i: int| 0 <= i < servers.len() && targets_tool(#[trigger] servers[i].targets@, self.tool_id@)) {
            Ok(None)
        } else {
            let parsed: Result<Option<JsonV>, Seq<char>> = match existing {
                None => Ok(None),
                Some(t) => match json_read(t) {
                    Ok(j) => Ok(Some(j)),
                    Err(m) => Err("Invalid JSON in .mcp.json: "@ + m),
                },
            };
            match parsed {
                Err(m) => Err(m),
                Ok(ej) => match merged_mcp(ej, mcp_plan(self.tool_id@, servers)) {
                    Ok(j) => Ok(Some(json_text(j))),
                    Err(m) => Err(m),
                },
            }
        }
    }

    /// Everything a projection into the tool writes, in order: the files of
    /// `plan_of`, then `.mcp.json` when a server targets the tool; it stops
    /// at the first error, carrying its message.
    pub open spec fn projection_of(
        self,
        root: Seq<char>,
        skills: Seq<Skill>,
        agents: Seq<Agent>,
        servers: Seq<McpServer>,
        existing_mcp: Option<Seq<char>>,
    ) -> (Seq<(Seq<char>, Seq<char>, Seq<char>)>, Option<Seq<char>>) {
        let p = self.plan_of(root, skills, agents);
        if p.1 is Some {
            p
        } else {
            match self.mcp_text_of(existing_mcp, servers) {
                Ok(Some(t)) => (p.0.push((".mcp.json"@, path_join(root, ".mcp.json"@), t)), None),
                Ok(None) => p,
                Err(m) => (p.0, Some(m)),
            }
        }
    }
}

proof fn lemma_skill_plan_stops(l: ToolLayout, root: Seq<char>, skills: Seq<Skill>, k: int)
    requires
        0 <= k <= skills.len(),
        l.skill_plan(root, skills.take(k)).1 is Some,
    ensures
        l.skill_plan(root, skills) == l.skill_plan(root, skills.take(k)),
    decreases skills.len() - k,
{
    if k < skills.len() {
        assert(skills.take(k + 1).drop_last() =~= skills.take(k));
        lemma_skill_plan_stops(l, root, skills, k + 1);
    } else {
        assert(skills.take(k) =~= skills);
    }
}

proof fn lemma_agent_plan_stops(
    l: ToolLayout,
    root: Seq<char>,
    agents: Seq<Agent>,
    skills: Seq<Skill>,
    k: int,
)
    requires
        0 <= k <= agents.len(),
        l.agent_plan(root, agents.take(k), skills).1 is Some,
    ensures
        l.agent_plan(root, agents, skills) == l.agent_plan(root, agents.take(k), skills),
    decreases agents.len() - k,
{
    if k < agents.len() {
        assert(agents.take(k + 1).drop_last() =~= agents.take(k));
        lemma_agent_plan_stops(l, root, agents, skills, k + 1);
    } else {
        assert(agents.take(k) =~= agents);
    }
}

impl ToolLayout {
    fn is_memory_skill_id(&self, id: &String) -> (b: bool)
        ensures
            b == is_memory_id(id@, self.skill_prefix@, self.agent_prefix@),
    {
        let c = chars_of(id.as_str());
        let sp = chars_of(self.skill_prefix.as_str());
        let ap = chars_of(self.agent_prefix.as_str());
        !has_prefix(&c, &sp) && !has_prefix(&c, &ap) && !equals_str(&c, "obsidian-session-worklog")
    }

    /// The memory file projected from the Brain: the tool's memory skills
    /// joined under the generated-file header; `None` when there are none.
    pub fn memory_file(&self, skills: &[Skill]) -> (doc: Option<String>)
        ensures
            ({
                let m = memory_sources(skills@, self.tool_id@, self.skill_prefix@, self.agent_prefix@);
                &&& m.len() == 0 ==> doc is None
                &&& m.len() > 0 ==> (doc matches Some(d) && d@ == generated_doc(m))
            }),
    {
        let mut out: Vec<Vec<char>> = Vec::new();
        let mut i: usize = 0;
        proof {
            assert(out.deep_view() =~= Seq::<Seq<char>>::empty());
            assert(skills@.take(0) =~= Seq::<Skill>::empty());
        }
        while i < skills.len()
            invariant
                i <= skills@.len(),
                out.deep_view() == memory_sources(
                    skills@.take(i as int),
                    self.tool_id@,
                    self.skill_prefix@,
                    self.agent_prefix@,
                ),
            decreases skills.len() - i,
        {
            proof {
                assert(skills@.take(i + 1).drop_last() =~= skills@.take(i as int));
                assert(skills@.take(i + 1).last() == skills@[i as int]);
            }
            if targets_contains(&skills[i].targets, self.tool_id.as_str())
                && self.is_memory_skill_id(&skills[i].id) {
                let src = chars_of(skills[i].source.as_str());
                let ghost before = out;
                out.push(src);
                proof {
                    lemma_deep_view_push(before, out, src);
                }
            }
            i = i + 1;
        }
        proof {
            assert(skills@.take(i as int) =~= skills@);
        }
        if out.len() == 0 {
            None
        } else {
            Some(generated_doc_of(&out))
        }
    }

    /// The file a skill is projected to, relative to the tool root, and its
    /// content; `None` for skills that do not target the tool or that are
    /// not skill files.
    pub fn skill_file(&self, skill: &Skill) -> (f: Option<(String, String)>)
        ensures
            !(targets_tool(skill.targets@, self.tool_id@) && is_skill_file_id(
                skill.id@,
                self.skill_prefix@,
            )) ==> f is None,
            targets_tool(skill.targets@, self.tool_id@) && is_skill_file_id(
                skill.id@,
                self.skill_prefix@,
            ) ==> (f matches Some(p) && p.0@ == skill_rel_path(
                self.config_dir@,
                skill.id@,
                self.skill_prefix@,
            ) && p.1@ == generated_header() + skill.source@),
    {
        let id = chars_of(skill.id.as_str());
        let sp = chars_of(self.skill_prefix.as_str());
        let prefixed = has_prefix(&id, &sp);
        if !(targets_contains(&skill.targets, self.tool_id.as_str()) && (prefixed || equals_str(
            &id,
            "obsidian-session-worklog",
        ))) {
            return None;
        }
        let slug = if prefixed {
            slice_chars(&id, sp.len(), id.len())
        } else {
            slice_chars(&id, 0, id.len())
        };
        proof {
            assert(slug@ =~= skill_slug(skill.id@, self.skill_prefix@));
        }
        let mut rel = chars_of(self.config_dir.as_str());
        append_str(&mut rel, "/skills/");
        append_chars(&mut rel, &slug);
        append_str(&mut rel, "/SKILL.md");
        let mut content = chars_of("<!-- GENERATED BY LLM NEUROSURGEON \u{2014} edit in the Brain -->\n");
        append_str(&mut content, skill.source.as_str());
        Some((string_of(&rel), string_of(&content)))
    }

    /// The file an agent is projected to, relative to the tool root, and its
    /// content: the agent's tools as frontmatter and, as the body, the source
    /// of its companion skill (the agent prefix followed by the slug), if any.
    pub fn agent_file(&self, agent: &Agent, skills: &[Skill]) -> (f: (String, String))
        ensures
            f.0@ == agent_rel_path(self.config_dir@, agent.slug@),
            f.1@ == agent_doc(
                string_seq(agent.tools@),
                companion_body(skills@, self.tool_id@, self.agent_prefix@ + agent.slug@),
            ),
    {
        let mut want = chars_of(self.agent_prefix.as_str());
        append_str(&mut want, agent.slug.as_str());
        let mut body: Vec<char> = Vec::new();
        let mut i: usize = 0;
        let ghost target = self.agent_prefix@ + agent.slug@;
        proof {
            assert(skills@.skip(0) =~= skills@);
        }
        while i < skills.len()
            invariant_except_break
                body@ == Seq::<char>::empty(),
            invariant
                i <= skills@.len(),
                want@ == target,
                companion_body(skills@, self.tool_id@, target) == companion_body(
                    skills@.skip(i as int),
                    self.tool_id@,
                    target,
                ),
            ensures
                body@ == companion_body(skills@, self.tool_id@, target),
            decreases skills.len() - i,
        {
            proof {
                assert(skills@.skip(i as int).drop_first() =~= skills@.skip(i + 1));
                assert(skills@.skip(i as int)[0] == skills@[i as int]);
            }
            let sid = chars_of(skills[i].id.as_str());
            if targets_contains(&skills[i].targets, self.tool_id.as_str()) && equals_chars(
                &sid,
                &want,
            ) {
                body = chars_of(skills[i].source.as_str());
                break;
            }
            i = i + 1;
            proof {
                if i == skills@.len() {
                    assert(skills@.skip(i as int) =~= Seq::<Skill>::empty());
                }
            }
        }
        let fm = serialize_agent_frontmatter(agent.tools.as_slice());
        let mut content = chars_of("<!-- GENERATED BY LLM NEUROSURGEON \u{2014} edit in the Brain -->\n");
        append_str(&mut content, fm.as_str());
        append_str(&mut content, "\n\n");
        append_chars(&mut content, &body);
        let mut rel = chars_of(self.config_dir.as_str());
        append_str(&mut rel, "/agents/");
        append_str(&mut rel, agent.slug.as_str());
        append_str(&mut rel, ".md");
        (string_of(&rel), string_of(&content))
    }

    /// The skill file to write under `root` and its content, after the
    /// traversal guard: `None` for skills that are not the tool's skill
    /// files; an error when the file would land outside `root`.
    pub fn skill_target(&self, root: &str, skill: &Skill) -> (r: Option<
        Result<(String, String), AdapterError>,
    >)
        ensures
            !(targets_tool(skill.targets@, self.tool_id@) && is_skill_file_id(
                skill.id@,
                self.skill_prefix@,
            )) ==> r is None,
            ({
                let rel = skill_rel_path(self.config_dir@, skill.id@, self.skill_prefix@);
                targets_tool(skill.targets@, self.tool_id@) && is_skill_file_id(
                    skill.id@,
                    self.skill_prefix@,
                ) ==> {
                    &&& escapes_root(rel) ==> (r matches Some(Err(AdapterError::Malformed(m)))
                        && m@ == outside_root_message(rel))
                    &&& !escapes_root(rel) ==> (r matches Some(Ok(p)) && p.0@ == path_join(
                        root@,
                        rel,
                    ) && p.1@ == generated_header() + skill.source@)
                }
            }),
    {
        match self.skill_file(skill) {
            None => None,
            Some((rel, content)) => match safe_join(root, rel.as_str()) {
                Ok(p) => Some(Ok((p, content))),
                Err(e) => Some(Err(e)),
            },
        }
    }

    /// The agent file to write under `root` and its content, after the
    /// traversal guard: an error when the file would land outside `root`.
    pub fn agent_target(&self, root: &str, agent: &Agent, skills: &[Skill]) -> (r: Result<
        (String, String),
        AdapterError,
    >)
        ensures
            ({
                let rel = agent_rel_path(self.config_dir@, agent.slug@);
                &&& escapes_root(rel) ==> (r matches Err(AdapterError::Malformed(m)) && m@
                    == outside_root_message(rel))
                &&& !escapes_root(rel) ==> (r matches Ok(p) && p.0@ == path_join(root@, rel)
                    && p.1@ == agent_doc(
                    string_seq(agent.tools@),
                    companion_body(skills@, self.tool_id@, self.agent_prefix@ + agent.slug@),
                ))
            }),
    {
        let (rel, content) = self.agent_file(agent, skills);
        match safe_join(root, rel.as_str()) {
            Ok(p) => Ok((p, content)),
            Err(e) => Err(e),
        }
    }

    /// The files to write when projecting the Brain into this tool under
    /// `root`, and the error that stops the projection, if any.
    pub fn plan(&self, root: &str, skills: &[Skill], agents: &[Agent]) -> (r: (
        Vec<PlannedFile>,
        Option<AdapterError>,
    ))
        ensures
            ({
                let p = self.plan_of(root@, skills@, agents@);
                &&& plan_views(r.0@) == p.0
                &&& (r.1 is None <==> p.1 is None)
                &&& (r.1 matches Some(e) ==> (e matches AdapterError::Malformed(m) && p.1 == Some(
                    m@,
                )))
            }),
    {
        let mut files: Vec<PlannedFile> = Vec::new();
        let ghost m = memory_sources(skills@, self.tool_id@, self.skill_prefix@, self.agent_prefix@);
        match self.memory_file(skills) {
            Some(doc) => {
                let base = chars_of(root);
                let name = chars_of(self.memory_name.as_str());
                let path = string_of(&crate::text::join_path(&base, &name));
                files.push(PlannedFile { rel: self.memory_name.clone(), path, content: doc });
            },
            None => {},
        }
        let ghost memory = plan_views(files@);
        proof {
            if m.len() > 0 {
                assert(memory =~= seq![(self.memory_name@, path_join(root@, self.memory_name@), generated_doc(m))]);
            } else {
                assert(memory =~= Seq::<(Seq<char>, Seq<char>, Seq<char>)>::empty());
            }
        }
        let mut i: usize = 0;
        proof {
            assert(skills@.take(0) =~= Seq::<Skill>::empty());
            assert(plan_views(files@) =~= memory + self.skill_plan(root@, skills@.take(0)).0);
        }
        while i < skills.len()
            invariant
                i <= skills@.len(),
                m == memory_sources(skills@, self.tool_id@, self.skill_prefix@, self.agent_prefix@),
                memory == (if m.len() > 0 {
                    seq![(self.memory_name@, path_join(root@, self.memory_name@), generated_doc(m))]
                } else {
                    Seq::<(Seq<char>, Seq<char>, Seq<char>)>::empty()
                }),
                self.skill_plan(root@, skills@.take(i as int)).1 is None,
                plan_views(files@) == memory + self.skill_plan(root@, skills@.take(i as int)).0,
            decreases skills.len() - i,
        {
            proof {
                assert(skills@.take(i + 1).drop_last() =~= skills@.take(i as int));
                assert(skills@.take(i + 1).last() == skills@[i as int]);
            }
            if let Some((rel, content)) = self.skill_file(&skills[i]) {
                match safe_join(root, rel.as_str()) {
                    Ok(path) => {
                        let ghost before = plan_views(files@);
                        files.push(PlannedFile { rel, path, content });
                        proof {
                            assert(plan_views(files@) =~= before.push(plan_views(files@).last()));
                        }
                    },
                    Err(e) => {
                        proof {
                            let s = skills@[i as int];
                            let r = skill_rel_path(self.config_dir@, s.id@, self.skill_prefix@);
                            assert(self.skill_plan(root@, skills@.take(i + 1)) == (
                                self.skill_plan(root@, skills@.take(i as int)).0,
                                Some(outside_root_message(r)),
                            ));
                            lemma_skill_plan_stops(*self, root@, skills@, i as int + 1);
                        }
                        return (files, Some(e));
                    },
                }
            }
            i = i + 1;
        }
        proof {
            assert(skills@.take(i as int) =~= skills@);
        }
        let ghost with_skills = plan_views(files@);
        let mut k: usize = 0;
        proof {
            assert(agents@.take(0) =~= Seq::<Agent>::empty());
            assert(plan_views(files@) =~= with_skills + self.agent_plan(root@, agents@.take(0), skills@).0);
        }
        while k < agents.len()
            invariant
                k <= agents@.len(),
                m == memory_sources(skills@, self.tool_id@, self.skill_prefix@, self.agent_prefix@),
                memory == (if m.len() > 0 {
                    seq![(self.memory_name@, path_join(root@, self.memory_name@), generated_doc(m))]
                } else {
                    Seq::<(Seq<char>, Seq<char>, Seq<char>)>::empty()
                }),
                self.skill_plan(root@, skills@).1 is None,
                with_skills == memory + self.skill_plan(root@, skills@).0,
                self.agent_plan(root@, agents@.take(k as int), skills@).1 is None,
                plan_views(files@) == with_skills + self.agent_plan(root@, agents@.take(k as int), skills@).0,
            decreases agents.len() - k,
        {
            proof {
                assert(agents@.take(k + 1).drop_last() =~= agents@.take(k as int));
                assert(agents@.take(k + 1).last() == agents@[k as int]);
            }
            if crate::adapters::paths::targets_contains(&agents[k].targets, self.tool_id.as_str()) {
                let (rel, content) = self.agent_file(&agents[k], skills);
                match safe_join(root, rel.as_str()) {
                    Ok(path) => {
                        let ghost before = plan_views(files@);
                        files.push(PlannedFile { rel, path, content });
                        proof {
                            assert(plan_views(files@) =~= before.push(plan_views(files@).last()));
                        }
                    },
                    Err(e) => {
                        proof {
                            let a = agents@[k as int];
                            let r = agent_rel_path(self.config_dir@, a.slug@);
                            assert(self.agent_plan(root@, agents@.take(k + 1), skills@) == (
                                self.agent_plan(root@, agents@.take(k as int), skills@).0,
                                Some(outside_root_message(r)),
                            ));
                            lemma_agent_plan_stops(*self, root@, agents@, skills@, k as int + 1);
                        }
                        return (files, Some(e));
                    },
                }
            }
            k = k + 1;
        }
        proof {
            assert(agents@.take(k as int) =~= agents@);
        }
        (files, None)
    }

    /// The tool's MCP config text after a projection (see `mcp_text_of`).
    pub fn mcp_file(&self, existing: Option<&str>, servers: &[McpServer]) -> (r: Result<
        Option<String>,
        AdapterError,
    >)
        ensures
            match r {
                Ok(Some(t)) => self.mcp_text_of(crate::compression::opt_view(existing), servers@) == Ok::<
                    Option<Seq<char>>,
                    Seq<char>,
                >(Some(t@)),
                Ok(None) => self.mcp_text_of(crate::compression::opt_view(existing), servers@) == Ok::<
                    Option<Seq<char>>,
                    Seq<char>,
                >(None),
                Err(e) => e matches AdapterError::Malformed(m) && self.mcp_text_of(
                    crate::compression::opt_view(existing),
                    servers@,
                ) == Err::<Option<Seq<char>>, Seq<char>>(m@),
            },
    {
        let mut any = false;
        let mut i: usize = 0;
        while i < servers.len()
            invariant
                i <= servers@.len(),
                any == exists|j: int| 0 <= j < i && targets_tool(#[trigger] servers@[j].targets@, self.tool_id@),
            decreases servers.len() - i,
        {
            if crate::adapters::paths::targets_contains(&servers[i].targets, self.tool_id.as_str()) {
                any = true;
            }
            i = i + 1;
        }
        if !any {
            return Ok(None);
        }
        let parsed = match existing {
            None => None,
            Some(t) => match parse_json(t) {
                Ok(j) => Some(j),
                Err(m) => {
                    let mut msg = chars_of("Invalid JSON in .mcp.json: ");
                    append_str(&mut msg, m.as_str());
                    return Err(AdapterError::Malformed(string_of(&msg)));
                },
            },
        };
        let entries = mcp_entries(self.tool_id.as_str(), servers);
        match merged_mcp_json(parsed, entries.as_slice()) {
            Ok(j) => Ok(Some(json_pretty(&j))),
            Err(e) => Err(e),
        }
    }

    /// Everything to write when projecting the Brain into this tool under
    /// `root` (see `projection_of`), and the error that stops it, if any.
    /// `existing_mcp` is the current `.mcp.json`, if there is one.
    pub fn projection(
        &self,
        root: &str,
        skills: &[Skill],
        agents: &[Agent],
        servers: &[McpServer],
        existing_mcp: Option<&str>,
    ) -> (r: (Vec<PlannedFile>, Option<AdapterError>))
        ensures
            ({
                let p = self.projection_of(
                    root@,
                    skills@,
                    agents@,
                    servers@,
                    crate::compression::opt_view(existing_mcp),
                );
                &&& plan_views(r.0@) == p.0
                &&& (r.1 is None <==> p.1 is None)
                &&& (r.1 matches Some(e) ==> (e matches AdapterError::Malformed(m) && p.1 == Some(
                    m@,
                )))
            }),
    {
        let (mut files, err) = self.plan(root, skills, agents);
        if err.is_some() {
            return (files, err);
        }
        match self.mcp_file(existing_mcp, servers) {
            Ok(Some(content)) => {
                let ghost before = plan_views(files@);
                let base = chars_of(root);
                let name = chars_of(".mcp.json");
                let path = string_of(&crate::text::join_path(&base, &name));
                files.push(PlannedFile { rel: crate::text::owned(".mcp.json"), path, content });
                proof {
                    assert(plan_views(files@) =~= before.push(plan_views(files@).last()));
                }
                (files, None)
            },
            Ok(None) => (files, None),
            Err(e) => (files, Some(e)),
        }
    }

    fn tool_list(&self) -> (v: Vec<String>)
        ensures
            string_seq(v@) == seq![self.tool_id@],
    {
        let mut v: Vec<String> = Vec::new();
        v.push(crate::text::owned(self.tool_id.as_str()));
        proof {
            assert(string_seq(v@) =~= seq![self.tool_id@]);
        }
        v
    }

    /// Imports the tool's files as the caller read them: `memory` is the
    /// memory file's text and hash; `skill_dirs` lists the skills directory
    /// (each entry's name, whether it is a symbolic link, and its `SKILL.md`
    /// text and hash if there is one); `agent_files` lists the agents
    /// directory the same way; `settings` and `mcp` are the texts of the
    /// settings file and `.mcp.json`. Symbolic links are never followed:
    /// their entries are skipped. Hashes are of the text each skill keeps.
    pub fn import_of(
        &self,
        memory: Option<(&str, &str)>,
        skill_dirs: &[(String, bool, Option<(String, String)>)],
        agent_files: &[(String, bool, Option<(String, String)>)],
        settings: Option<&str>,
        mcp: Option<&str>,
    ) -> (r: Result<ToolImport, AdapterError>)
        ensures
            ({
                let want = self.import_spec(
                    match memory {
                        Some(m) => Some((m.0@, m.1@)),
                        None => None,
                    },
                    listing_views(skill_dirs@),
                    listing_views(agent_files@),
                    crate::compression::opt_view(settings),
                    crate::compression::opt_view(mcp),
                );
                match r {
                    Ok(t) => want == Ok::<
                        (Seq<SkillV>, Seq<AgentV>, Seq<(Seq<char>, JsonV)>),
                        Seq<char>,
                    >(
                        (
                            skill_views(t.skills@),
                            t.agents@.map_values(|a: Agent| agent_view(a)),
                            entries_of(t.servers@),
                        ),
                    ),
                    Err(e) => e matches AdapterError::Malformed(m) && want == Err::<
                        (Seq<SkillV>, Seq<AgentV>, Seq<(Seq<char>, JsonV)>),
                        Seq<char>,
                    >(m@),
                }
            }),
    {
        let mut servers: Vec<(String, Json)> = Vec::new();
        if let Some(t) = settings {
            let mut file = chars_of(self.config_dir.as_str());
            append_str(&mut file, "/settings.json");
            let name = string_of(&file);
            match mcp_server_table(t, name.as_str()) {
                Ok(v) => {
                    servers = v;
                },
                Err(e) => {
                    return Err(e);
                },
            }
        }
        let ghost from_settings = entries_of(servers@);
        if let Some(t) = mcp {
            match mcp_server_table(t, ".mcp.json") {
                Ok(v) => {
                    let mut v = v;
                    let ghost a = servers@;
                    let ghost b = v@;
                    servers.append(&mut v);
                    proof {
                        crate::json::lemma_entries_index(a);
                        crate::json::lemma_entries_index(b);
                        crate::json::lemma_entries_index(servers@);
                        assert(entries_of(servers@) =~= entries_of(a) + entries_of(b));
                    }
                },
                Err(e) => {
                    return Err(e);
                },
            }
        } else {
            proof {
                assert(entries_of(servers@) =~= from_settings + Seq::<(Seq<char>, JsonV)>::empty());
            }
        }
        let mut skills: Vec<Skill> = Vec::new();
        if let Some((text, sha)) = memory {
            let sk = make_skill(
                crate::text::owned(self.memory_id.as_str()),
                "*",
                self.tool_id.as_str(),
                strip_provenance(text),
                crate::text::owned(sha),
            );
            skills.push(sk);
            proof {
                assert(skill_views(skills@) =~= seq![skill_view(sk)]);
            }
        } else {
            proof {
                assert(skill_views(skills@) =~= Seq::<SkillV>::empty());
            }
        }
        let ghost mem = skill_views(skills@);
        let ghost dv = listing_views(skill_dirs@);
        let mut i: usize = 0;
        proof {
            assert(dv.take(0) =~= Seq::<(Seq<char>, bool, Option<(Seq<char>, Seq<char>)>)>::empty());
            assert(skill_views(skills@) =~= mem + self.dir_skills(dv.take(0)));
        }
        while i < skill_dirs.len()
            invariant
                i <= skill_dirs@.len(),
                dv == listing_views(skill_dirs@),
                skill_views(skills@) == mem + self.dir_skills(dv.take(i as int)),
            decreases skill_dirs.len() - i,
        {
            proof {
                assert(dv.take(i + 1).drop_last() =~= dv.take(i as int));
                assert(dv.take(i + 1).last() == dv[i as int]);
            }
            let (name, link, file) = &skill_dirs[i];
            if !*link {
                if let Some((text, sha)) = file {
                    let mut id = chars_of(self.skill_prefix.as_str());
                    append_str(&mut id, name.as_str());
                    let stripped = strip_provenance(text.as_str());
                    let body = trim_chars(&chars_of(stripped.as_str()));
                    let ghost before = skill_views(skills@);
                    let sk = make_skill(
                        string_of(&id),
                        "*",
                        self.tool_id.as_str(),
                        string_of(&body),
                        crate::text::owned(sha.as_str()),
                    );
                    skills.push(sk);
                    proof {
                        assert(skill_views(skills@) =~= before.push(skill_view(sk)));
                    }
                }
            }
            i = i + 1;
        }
        proof {
            assert(dv.take(i as int) =~= dv);
        }
        let ghost fv = listing_views(agent_files@);
        let ghost with_dirs = skill_views(skills@);
        let mut agents: Vec<Agent> = Vec::new();
        let mut k: usize = 0;
        proof {
            assert(fv.take(0) =~= Seq::<(Seq<char>, bool, Option<(Seq<char>, Seq<char>)>)>::empty());
            assert(skill_views(skills@) =~= with_dirs + self.agent_skills(fv.take(0)));
            assert(agents@.map_values(|a: Agent| agent_view(a)) =~= self.file_agents(fv.take(0)));
        }
        while k < agent_files.len()
            invariant
                k <= agent_files@.len(),
                fv == listing_views(agent_files@),
                skill_views(skills@) == with_dirs + self.agent_skills(fv.take(k as int)),
                agents@.map_values(|a: Agent| agent_view(a)) == self.file_agents(fv.take(k as int)),
            decreases agent_files.len() - k,
        {
            proof {
                assert(fv.take(k + 1).drop_last() =~= fv.take(k as int));
                assert(fv.take(k + 1).last() == fv[k as int]);
            }
            let (name, link, file) = &agent_files[k];
            let (stem, ext) = name_parts(name.as_str());
            let is_md = match &ext {
                Some(e) => equals_str(&chars_of(e.as_str()), "md"),
                None => false,
            };
            if !*link && is_md {
                if let Some((text, sha)) = file {
                    let stripped = strip_provenance(text.as_str());
                    let (fm, body) = split_frontmatter(stripped.as_str());
                    let tools = match &fm {
                        Some(f) => parse_agent_tools(f.as_str()),
                        None => Vec::new(),
                    };
                    proof {
                        if fm is None {
                            assert(string_seq(tools@) =~= Seq::<Seq<char>>::empty());
                        }
                    }
                    let agent = Agent {
                        slug: crate::text::owned(stem.as_str()),
                        tools,
                        model_hints: Vec::new(),
                        targets: self.tool_list(),
                    };
                    let ghost abefore = agents@.map_values(|a: Agent| agent_view(a));
                    proof {
                        assert(string_seq(agent.model_hints@) =~= Seq::<Seq<char>>::empty());
                    }
                    agents.push(agent);
                    proof {
                        assert(agents@.map_values(|a: Agent| agent_view(a)) =~= abefore.push(
                            agent_view(agent),
                        ));
                    }
                    let mut id = chars_of(self.agent_prefix.as_str());
                    append_str(&mut id, stem.as_str());
                    let trimmed = trim_chars(&chars_of(body.as_str()));
                    let ghost before = skill_views(skills@);
                    let sk = make_skill(
                        string_of(&id),
                        "*",
                        self.tool_id.as_str(),
                        string_of(&trimmed),
                        crate::text::owned(sha.as_str()),
                    );
                    skills.push(sk);
                    proof {
                        assert(skill_views(skills@) =~= before.push(skill_view(sk)));
                    }
                }
            }
            k = k + 1;
        }
        proof {
            assert(fv.take(k as int) =~= fv);
            assert(with_dirs == mem + self.dir_skills(dv));
        }
        Ok(ToolImport { skills, agents, servers })
    }
}

} // verus!
