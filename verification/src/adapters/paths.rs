//! What the adapters share: the lexical path-traversal guard for projected
//! files, target selection, and the generated-file header.

use vstd::prelude::*;

use crate::model::{targets_tool, AdapterError, Skill};
use crate::text::{
    append_chars, append_str, chars_of, equals_str, join, join_chars, join_path,
    lemma_deep_view_push, path_join, slice_chars, split_at_char, split_char, starts_with,
    string_of,
};

verus! {

/// A relative path that `Path::components` shows to leave its root: it has
/// a root (`/...`) or a `..` component.
pub open spec fn escapes_root(rel: Seq<char>) -> bool {
    (rel.len() > 0 && rel[0] == '/') || split_char(rel, '/').contains(".."@)
}

/// The message of the traversal refusal.
pub open spec fn outside_root_message(rel: Seq<char>) -> Seq<char> {
    "refusing to write outside the target root: "@ + rel
}

/// Whether a relative path leaves its root (see `escapes_root`).
pub fn leaves_root(relative: &str) -> (b: bool)
    ensures
        b == escapes_root(relative@),
{
    let rel = chars_of(relative);
    let mut bad = rel.len() > 0 && rel[0] == '/';
    let parts = split_at_char(&rel, '/');
    let mut i: usize = 0;
    while i < parts.len()
        invariant
            i <= parts@.len(),
            rel@ == relative@,
            parts.deep_view() == split_char(relative@, '/'),
            bad == ((rel@.len() > 0 && rel@[0] == '/') || exists|j: int|
                0 <= j < i && #[trigger] parts.deep_view()[j] == ".."@),
        decreases parts.len() - i,
    {
        assert(parts.deep_view()[i as int] == parts@[i as int]@);
        if equals_str(&parts[i], "..") {
            bad = true;
        }
        i = i + 1;
    }
    proof {
        if split_char(relative@, '/').contains(".."@) {
            let j = choose|j: int|
                0 <= j < split_char(relative@, '/').len() && split_char(relative@, '/')[j]
                    == ".."@;
            assert(parts.deep_view()[j] == ".."@);
        }
    }
    bad
}

/// Joins `relative` onto `root` after a lexical check of its components:
/// a root or a `..` component is refused, so nothing can be written outside
/// `root`.
pub fn safe_join(root: &str, relative: &str) -> (r: Result<String, AdapterError>)
    ensures
        escapes_root(relative@) ==> (r matches Err(AdapterError::Malformed(m)) && m@
            == outside_root_message(relative@)),
        !escapes_root(relative@) ==> (r matches Ok(p) && p@ == path_join(root@, relative@)),
{
    if leaves_root(relative) {
        let mut m = chars_of("refusing to write outside the target root: ");
        append_str(&mut m, relative);
        Err(AdapterError::Malformed(string_of(&m)))
    } else {
        let base = chars_of(root);
        let rel = chars_of(relative);
        Ok(string_of(&join_path(&base, &rel)))
    }
}

/// Text as the Brain keeps it: without the provenance header that a
/// projection puts at the top of every generated file.
pub open spec fn provenance_stripped(s: Seq<char>) -> Seq<char> {
    if starts_with(s, generated_header()) {
        s.skip(generated_header().len() as int)
    } else {
        s
    }
}

/// Removes the provenance header of a generated file, if it has one.
pub fn strip_provenance(s: &str) -> (t: String)
    ensures
        t@ == provenance_stripped(s@),
{
    let c = chars_of(s);
    let h = chars_of("<!-- GENERATED BY LLM NEUROSURGEON \u{2014} edit in the Brain -->\n");
    if h.len() <= c.len() && crate::text::has_prefix(&c, &h) {
        string_of(&slice_chars(&c, h.len(), c.len()))
    } else {
        string_of(&c)
    }
}

// ── file names ──────────────────────────────────────────────────────────

/// `Path::file_name` over the `/`-separated pieces of a path: the last
/// piece that is neither empty nor `.`; none when that piece is `..` or
/// there is no such piece.
pub open spec fn last_name(parts: Seq<Seq<char>>) -> Option<Seq<char>>
    decreases parts.len(),
{
    if parts.len() == 0 {
        None
    } else {
        let l = parts.last();
        if l.len() == 0 || l == "."@ {
            last_name(parts.drop_last())
        } else if l == ".."@ {
            None
        } else {
            Some(l)
        }
    }
}

/// `Path::file_name` of a path written with `/`.
pub open spec fn file_name_of(path: Seq<char>) -> Option<Seq<char>> {
    last_name(split_char(path, '/'))
}

/// Index of the last `.` in `s`, or `-1`.
pub open spec fn last_dot(s: Seq<char>) -> int
    decreases s.len(),
{
    if s.len() == 0 {
        -1
    } else if s.last() == '.' {
        s.len() - 1
    } else {
        last_dot(s.drop_last())
    }
}

/// `Path::file_stem` of a file name: the name up to its last `.`, unless
/// that dot is the first character or there is none.
pub open spec fn stem_of(name: Seq<char>) -> Seq<char> {
    let d = last_dot(name);
    if d <= 0 {
        name
    } else {
        name.take(d)
    }
}

/// `Path::extension` of a file name: what follows its last `.`, unless that
/// dot is the first character or there is none.
pub open spec fn extension_of(name: Seq<char>) -> Option<Seq<char>> {
    let d = last_dot(name);
    if d <= 0 {
        None
    } else {
        Some(name.skip(d + 1))
    }
}

proof fn lemma_last_dot_at(s: Seq<char>, d: int)
    requires
        -1 <= d < s.len(),
        d >= 0 ==> s[d] == '.',
        forall|j: int| d < j < s.len() ==> #[trigger] s[j] != '.',
    ensures
        last_dot(s) == d,
    decreases s.len(),
{
    if s.len() > 0 && d < s.len() - 1 {
        let t = s.drop_last();
        assert forall|j: int| d < j < t.len() implies #[trigger] t[j] != '.' by {
            assert(t[j] == s[j]);
        }
        assert(s.last() != '.');
        lemma_last_dot_at(t, d);
    }
}

/// The stem and extension of a file name, as `Path` splits them.
pub fn name_parts(name: &str) -> (r: (String, Option<String>))
    ensures
        r.0@ == stem_of(name@),
        match r.1 {
            Some(e) => extension_of(name@) == Some(e@),
            None => extension_of(name@) is None,
        },
{
    let c = chars_of(name);
    let n = c.len();
    let mut i: usize = n;
    while i > 0 && c[i - 1] != '.'
        invariant
            i <= c@.len(),
            forall|j: int| i <= j < c@.len() ==> #[trigger] c@[j] != '.',
        decreases i,
    {
        i = i - 1;
    }
    proof {
        if i > 0 {
            lemma_last_dot_at(c@, i - 1);
        } else {
            lemma_last_dot_at(c@, -1);
        }
    }
    if i <= 1 {
        (string_of(&c), None)
    } else {
        (string_of(&slice_chars(&c, 0, i - 1)), Some(string_of(&slice_chars(&c, i, n))))
    }
}

/// The file name of a path written with `/`, as `Path::file_name` gives it.
pub fn file_name(path: &str) -> (r: Option<String>)
    ensures
        match r {
            Some(n) => file_name_of(path@) == Some(n@),
            None => file_name_of(path@) is None,
        },
{
    let c = chars_of(path);
    let parts = split_at_char(&c, '/');
    let ghost all = parts.deep_view();
    let mut i: usize = parts.len();
    proof {
        assert(all.take(all.len() as int) =~= all);
    }
    while i > 0
        invariant
            i <= parts@.len(),
            all == parts.deep_view(),
            all == split_char(path@, '/'),
            last_name(all) == last_name(all.take(i as int)),
        decreases i,
    {
        let ghost t = all.take(i as int);
        proof {
            assert(t.drop_last() =~= all.take(i - 1));
            assert(t.last() == parts@[i - 1]@);
        }
        let l = &parts[i - 1];
        if !(l.len() == 0 || equals_str(l, ".")) {
            if equals_str(l, "..") {
                return None;
            }
            return Some(string_of(l));
        }
        i = i - 1;
    }
    proof {
        assert(all.take(0) =~= Seq::<Seq<char>>::empty());
    }
    None
}

/// What `safe_join` accepts stays inside the root: the joined path starts
/// with `root`.
pub proof fn lemma_safe_join_stays_inside(root: Seq<char>, rel: Seq<char>)
    requires
        !escapes_root(rel),
    ensures
        starts_with(path_join(root, rel), root),
{
    assert(path_join(root, rel).take(root.len() as int) =~= root);
}

/// Whether `targets` names the tool `id`.
pub fn targets_contains(targets: &Vec<String>, id: &str) -> (b: bool)
    ensures
        b == targets_tool(targets@, id@),
{
    let mut i: usize = 0;
    while i < targets.len()
        invariant
            i <= targets@.len(),
            forall|j: int| 0 <= j < i ==> #[trigger] targets@[j]@ != id@,
        decreases targets.len() - i,
    {
        let t = chars_of(targets[i].as_str());
        if equals_str(&t, id) {
            return true;
        }
        i = i + 1;
    }
    false
}

/// The sources of the skills that target the tool `id`, in order.
pub open spec fn sources_for(skills: Seq<Skill>, id: Seq<char>) -> Seq<Seq<char>>
    decreases skills.len(),
{
    if skills.len() == 0 {
        seq![]
    } else {
        let rest = sources_for(skills.drop_last(), id);
        if targets_tool(skills.last().targets@, id) {
            rest.push(skills.last().source@)
        } else {
            rest
        }
    }
}

/// The provenance line that heads every file generated from the Brain.
pub open spec fn generated_header() -> Seq<char> {
    "<!-- GENERATED BY LLM NEUROSURGEON \u{2014} edit in the Brain -->\n"@
}

/// A generated document: the header, then the sources separated by rules.
pub open spec fn generated_doc(sources: Seq<Seq<char>>) -> Seq<char> {
    generated_header() + join(sources, "\n\n---\n\n"@)
}

/// The sources of the skills that target `id`, as character vectors.
pub fn collect_sources(skills: &[Skill], id: &str) -> (out: Vec<Vec<char>>)
    ensures
        out.deep_view() == sources_for(skills@, id@),
{
    let mut out: Vec<Vec<char>> = Vec::new();
    let mut i: usize = 0;
    proof {
        assert(out.deep_view() =~= Seq::<Seq<char>>::empty());
        assert(skills@.take(0) =~= Seq::<Skill>::empty());
    }
    while i < skills.len()
        invariant
            i <= skills@.len(),
            out.deep_view() == sources_for(skills@.take(i as int), id@),
        decreases skills.len() - i,
    {
        proof {
            assert(skills@.take(i + 1).drop_last() =~= skills@.take(i as int));
            assert(skills@.take(i + 1).last() == skills@[i as int]);
        }
        if targets_contains(&skills[i].targets, id) {
            let src = chars_of(skills[i].source.as_str());
            let ghost before = out;
            out.push(src);
            proof {
                lemma_deep_view_push(before, out, src);
            }
        }
        i = i + 1;
    }
    proof {
        assert(skills@.take(i as int) =~= skills@);
    }
    out
}

/// The generated document for some sources.
pub fn generated_doc_of(sources: &Vec<Vec<char>>) -> (s: String)
    ensures
        s@ == generated_doc(sources.deep_view()),
{
    let mut out = chars_of("<!-- GENERATED BY LLM NEUROSURGEON \u{2014} edit in the Brain -->\n");
    let body = join_chars(sources, "\n\n---\n\n");
    append_chars(&mut out, &body);
    string_of(&out)
}

} // verus!
