//! Rendering of a template against a value tree: placeholder substitution,
//! removal of literally false conditional blocks, and line cleanup.
use vstd::prelude::*;

use crate::text::{
    chars_of, concat_chars, contains, contains_exec, decimal, decimal_chars, find_from,
    first_from, join_lines, join_lines_exec, lemma_first_from, lines, lines_exec, occurs_at,
    occurs_at_exec, replace_all, replace_all_exec, slice_chars, starts_with,
    string_of, texts_view, trim, trim_chars,
};
use crate::values::{
    Tree, ValueTree, Values, entries_view, items_view, lemma_mapping_view, lemma_sequence_view,
};
use crate::yaml::{yaml_block, yaml_text};

verus! {

/// A template file: its path and its text.
#[derive(Debug, Clone)]
pub struct Template {
    pub path: String,
    pub content: String,
}

/// The output of rendering one template against one values set.
#[derive(Debug, Clone)]
pub struct RenderedTemplate {
    pub template_path: String,
    pub rendered_content: String,
    pub values_source: String,
}

/// The marker that opens a literally false conditional block.
pub open spec fn open_marker() -> Seq<char> {
    "{{- if false }}"@
}

/// The marker that closes a conditional block.
pub open spec fn end_marker() -> Seq<char> {
    "{{- end }}"@
}

/// The token that opens a placeholder.
pub open spec fn placeholder_open() -> Seq<char> {
    "{{"@
}

/// A tree that holds other trees.
pub open spec fn is_composite(t: Tree) -> bool {
    t is Sequence || t is Mapping
}

/// The text that a placeholder bound to `t` is replaced by.
pub open spec fn value_text(t: Tree) -> Seq<char> {
    match t {
        Tree::Text(s) => s,
        Tree::Number(n) => n,
        Tree::Bool(b) => if b {
            "true"@
        } else {
            "false"@
        },
        Tree::Null => Seq::empty(),
        _ => match yaml_block(t) {
            Some(y) => y,
            None => Seq::empty(),
        },
    }
}

/// `{{ .path }}`
pub open spec fn spaced_placeholder(path: Seq<char>) -> Seq<char> {
    "{{ ."@ + path + " }}"@
}

/// `{{.path}}`
pub open spec fn tight_placeholder(path: Seq<char>) -> Seq<char> {
    "{{."@ + path + "}}"@
}

/// `{{ .path | quote }}`
pub open spec fn quoted_placeholder(path: Seq<char>) -> Seq<char> {
    "{{ ."@ + path + " | quote }}"@
}

/// `text` with the three spellings of the placeholder for `path` replaced by `r`.
pub open spec fn substitute_path(text: Seq<char>, path: Seq<char>, r: Seq<char>) -> Seq<char> {
    replace_all(
        replace_all(replace_all(text, spaced_placeholder(path), r), tight_placeholder(path), r),
        quoted_placeholder(path),
        r,
    )
}

/// The number of children of `t`.
pub open spec fn child_count(t: Tree) -> int {
    match t {
        Tree::Sequence(items) => items.len() as int,
        Tree::Mapping(es) => es.len() as int,
        _ => 0,
    }
}

/// The path of the `i`-th item of the sequence at `prefix`.
pub open spec fn index_path(prefix: Seq<char>, i: nat) -> Seq<char> {
    prefix + "["@ + decimal(i) + "]"@
}

/// The path of the entry `k` of the mapping at `prefix`.
pub open spec fn key_path(prefix: Seq<char>, k: Seq<char>) -> Seq<char> {
    prefix + "."@ + k
}

/// Depth-first substitution over the children of `t` from the `i`-th on, `t`
/// standing at `prefix`. A mapping entry's placeholders are replaced before
/// its own children are visited; a sequence item is reached only through its
/// children.
pub open spec fn substituted(text: Seq<char>, t: Tree, prefix: Seq<char>, i: int) -> Seq<char>
    decreases t, child_count(t) - i,
{
    if i < 0 || i >= child_count(t) {
        text
    } else {
        match t {
            Tree::Mapping(es) => {
                let path = key_path(prefix, es[i].0);
                let v = es[i].1;
                let t1 = substitute_path(text, path, value_text(v));
                let t2 = if is_composite(v) {
                    substituted(t1, v, path, 0)
                } else {
                    t1
                };
                substituted(t2, t, prefix, i + 1)
            },
            Tree::Sequence(items) => {
                let v = items[i];
                let t2 = if is_composite(v) {
                    substituted(text, v, index_path(prefix, i as nat), 0)
                } else {
                    text
                };
                substituted(t2, t, prefix, i + 1)
            },
            _ => text,
        }
    }
}

/// `s` with each literally false conditional block removed, first open marker
/// with the first end marker after it, until no complete block is left.
pub open spec fn strip_false_blocks(s: Seq<char>) -> Seq<char>
    decreases s.len(),
    via strip_false_blocks_decreases
{
    match first_from(s, open_marker(), 0) {
        Some(a) => match first_from(s, end_marker(), a) {
            Some(e) => strip_false_blocks(
                s.subrange(0, a) + s.subrange(e + end_marker().len(), s.len() as int),
            ),
            None => s,
        },
        None => s,
    }
}

#[via_fn]
proof fn strip_false_blocks_decreases(s: Seq<char>) {
    reveal_strlit("{{- end }}");
    lemma_first_from(s, open_marker(), 0);
    if let Some(a) = first_from(s, open_marker(), 0) {
        lemma_first_from(s, end_marker(), a);
    }
}

/// A line that cleanup keeps: one that is not blank, not a comment and holds
/// no placeholder opening. A line that is the document separator alone is
/// always kept.
pub open spec fn keep_line(l: Seq<char>) -> bool {
    let t = trim(l);
    !contains(l, placeholder_open()) && t.len() > 0 && !starts_with(t, "#"@)
}

/// The lines of `ls` that cleanup keeps, in order.
pub open spec fn kept_lines(ls: Seq<Seq<char>>) -> Seq<Seq<char>>
    decreases ls.len(),
{
    if ls.len() == 0 {
        Seq::empty()
    } else if keep_line(ls.last()) {
        kept_lines(ls.drop_last()).push(ls.last())
    } else {
        kept_lines(ls.drop_last())
    }
}

/// Cleanup of rendered text.
pub open spec fn cleaned(s: Seq<char>) -> Seq<char> {
    join_lines(kept_lines(lines(s)))
}

/// The text of `content` rendered against `values`.
pub open spec fn rendered(content: Seq<char>, values: Tree) -> Seq<char> {
    cleaned(strip_false_blocks(substituted(content, values, "Values"@, 0)))
}

/// The text that a placeholder bound to `value` is replaced by.
fn value_to_string(value: &ValueTree) -> (r: Vec<char>)
    ensures
        r@ == value_text(value@),
{
    match value {
        ValueTree::Text(s) => chars_of(s.as_str()),
        ValueTree::Number(n) => chars_of(n.as_str()),
        ValueTree::Bool(b) => if *b {
            chars_of("true")
        } else {
            chars_of("false")
        },
        ValueTree::Null => Vec::new(),
        _ => match yaml_text(value) {
            Some(y) => chars_of(y.as_str()),
            None => Vec::new(),
        },
    }
}

fn is_composite_value(value: &ValueTree) -> (r: bool)
    ensures
        r == is_composite(value@),
{
    match value {
        ValueTree::Sequence(_) => true,
        ValueTree::Mapping(_) => true,
        _ => false,
    }
}

/// `text` with the three spellings of the placeholder for `path` replaced by `r`.
fn substitute_path_exec(text: &Vec<char>, path: &Vec<char>, r: &Vec<char>) -> (out: Vec<char>)
    ensures
        out@ == substitute_path(text@, path@, r@),
{
    let spaced = concat_chars(&concat_chars(&chars_of("{{ ."), path), &chars_of(" }}"));
    let tight = concat_chars(&concat_chars(&chars_of("{{."), path), &chars_of("}}"));
    let quoted = concat_chars(&concat_chars(&chars_of("{{ ."), path), &chars_of(" | quote }}"));
    let t1 = replace_all_exec(text, &spaced, r);
    let t2 = replace_all_exec(&t1, &tight, r);
    replace_all_exec(&t2, &quoted, r)
}

/// Depth-first substitution of every path of `values` below `prefix`.
fn substitute_nested_values(content: Vec<char>, values: &ValueTree, prefix: &Vec<char>) -> (r: Vec<
    char,
>)
    ensures
        r@ == substituted(content@, values@, prefix@, 0),
    decreases values,
{
    match values {
        ValueTree::Mapping(es) => {
            proof {
                lemma_mapping_view(*es);
            }
            substitute_entries(content, es, prefix)
        },
        ValueTree::Sequence(items) => {
            proof {
                lemma_sequence_view(*items);
            }
            substitute_items(content, items, prefix)
        },
        _ => content,
    }
}

fn substitute_entries(content: Vec<char>, es: &Vec<(String, ValueTree)>, prefix: &Vec<char>) -> (r:
    Vec<char>)
    ensures
        r@ == substituted(content@, Tree::Mapping(entries_view(es@)), prefix@, 0),
    decreases es,
{
    let ghost tv = Tree::Mapping(entries_view(es@));
    let ghost target = substituted(content@, tv, prefix@, 0);
    let mut text = content;
    let mut i: usize = 0;
    while i < es.len()
        invariant
            i <= es@.len(),
            tv == Tree::Mapping(entries_view(es@)),
            substituted(text@, tv, prefix@, i as int) == target,
        decreases es@.len() - i,
    {
        let path = concat_chars(&concat_chars(prefix, &chars_of(".")), &chars_of(
            es[i].0.as_str(),
        ));
        let r = value_to_string(&es[i].1);
        let t1 = substitute_path_exec(&text, &path, &r);
        if is_composite_value(&es[i].1) {
            proof {
                assert(decreases_to!(*es => es[i as int]));
            }
            text = substitute_nested_values(t1, &es[i].1, &path);
        } else {
            text = t1;
        }
        i += 1;
    }
    text
}

fn substitute_items(content: Vec<char>, items: &Vec<ValueTree>, prefix: &Vec<char>) -> (r: Vec<
    char,
>)
    ensures
        r@ == substituted(content@, Tree::Sequence(items_view(items@)), prefix@, 0),
    decreases items,
{
    let ghost tv = Tree::Sequence(items_view(items@));
    let ghost target = substituted(content@, tv, prefix@, 0);
    let mut text = content;
    let mut i: usize = 0;
    while i < items.len()
        invariant
            i <= items@.len(),
            tv == Tree::Sequence(items_view(items@)),
            substituted(text@, tv, prefix@, i as int) == target,
        decreases items@.len() - i,
    {
        if is_composite_value(&items[i]) {
            let path = concat_chars(
                &concat_chars(&concat_chars(prefix, &chars_of("[")), &decimal_chars(i as u64)),
                &chars_of("]"),
            );
            proof {
                assert(decreases_to!(*items => items[i as int]));
            }
            text = substitute_nested_values(text, &items[i], &path);
        }
        i += 1;
    }
    text
}

/// `content` with each literally false conditional block removed.
fn handle_conditionals(content: &Vec<char>) -> (r: Vec<char>)
    ensures
        r@ == strip_false_blocks(content@),
{
    let open = chars_of("{{- if false }}");
    let end = chars_of("{{- end }}");
    proof {
        reveal_strlit("{{- end }}");
    }
    let mut result = slice_chars(content, 0, content.len());
    assert(content@.subrange(0, content@.len() as int) =~= content@);
    loop
        invariant
            open@ == open_marker(),
            end@ == end_marker(),
            end@.len() == 10,
            strip_false_blocks(result@) == strip_false_blocks(content@),
        ensures
            strip_false_blocks(content@) == result@,
        decreases result@.len(),
    {
        proof {
            lemma_first_from(result@, open@, 0);
        }
        match find_from(&result, &open, 0) {
            Some(a) => {
                proof {
                    lemma_first_from(result@, end@, a as int);
                }
                match find_from(&result, &end, a) {
                    Some(e) => {
                        assert(occurs_at(result@, end@, e as int));
                        let head = slice_chars(&result, 0, a);
                        let el = end.len();
                        let n = result.len();
                        assert(e + el <= n);
                        let tail = slice_chars(&result, e + el, n);
                        result = concat_chars(&head, &tail);
                    },
                    None => {
                        assert(strip_false_blocks(result@) == result@);
                        break ;
                    },
                }
            },
            None => {
                assert(strip_false_blocks(result@) == result@);
                break ;
            },
        }
    }
    result
}

/// Whether cleanup keeps the line `l`.
fn keep_line_exec(l: &Vec<char>) -> (r: bool)
    ensures
        r == keep_line(l@),
{
    let t = trim_chars(l);
    !contains_exec(l, &chars_of("{{")) && t.len() > 0 && !occurs_at_exec(&t, &chars_of("#"), 0)
}

/// Cleanup of rendered text: blank lines, comment lines and lines that still
/// hold a placeholder go; every other line, the separator included, stays.
fn clean_chars(content: &Vec<char>) -> (r: Vec<char>)
    ensures
        r@ == cleaned(content@),
{
    let ls = lines_exec(content);
    let mut kept: Vec<Vec<char>> = Vec::new();
    let mut i: usize = 0;
    while i < ls.len()
        invariant
            i <= ls@.len(),
            texts_view(kept@) == kept_lines(texts_view(ls@).subrange(0, i as int)),
        decreases ls@.len() - i,
    {
        let ghost before = texts_view(kept@);
        let ghost next = texts_view(ls@).subrange(0, i + 1);
        assert(next.drop_last() =~= texts_view(ls@).subrange(0, i as int));
        if keep_line_exec(&ls[i]) {
            let l = slice_chars(&ls[i], 0, ls[i].len());
            assert(ls@[i as int]@.subrange(0, ls@[i as int]@.len() as int) =~= ls@[i as int]@);
            kept.push(l);
            assert(texts_view(kept@) =~= before.push(next.last()));
        }
        i += 1;
    }
    assert(texts_view(ls@).subrange(0, i as int) =~= texts_view(ls@));
    join_lines_exec(&kept)
}

impl Template {
    /// A template renders nothing when its trimmed text is blank or opens
    /// with a literally false conditional.
    pub fn is_empty_template(&self) -> (r: bool)
        ensures
            r == (trim(self.content@).len() == 0 || starts_with(
                trim(self.content@),
                "{{- if false"@,
            )),
    {
        let t = trim_chars(&chars_of(self.content.as_str()));
        t.len() == 0 || occurs_at_exec(&t, &chars_of("{{- if false"), 0)
    }

    /// Renders the template against `values`.
    pub fn render(&self, values: &Values) -> (r: RenderedTemplate)
        ensures
            r.rendered_content@ == rendered(self.content@, values.data@),
            r.template_path@ == self.path@,
            r.values_source@ == values.source@,
    {
        let content = chars_of(self.content.as_str());
        let substituted = self.substitute_variables(&content, &values.data);
        let rendered = clean_chars(&substituted);
        RenderedTemplate {
            template_path: self.path.clone(),
            rendered_content: string_of(&rendered),
            values_source: values.source.clone(),
        }
    }

    /// Substitutes the paths of `values` into `content`, then removes the
    /// literally false conditional blocks.
    fn substitute_variables(&self, content: &Vec<char>, values: &ValueTree) -> (r: Vec<char>)
        ensures
            r@ == strip_false_blocks(substituted(content@, values@, "Values"@, 0)),
    {
        let copy = slice_chars(content, 0, content.len());
        assert(content@.subrange(0, content@.len() as int) =~= content@);
        let result = substitute_nested_values(copy, values, &chars_of("Values"));
        handle_conditionals(&result)
    }

    /// Cleanup of rendered text (see [`cleaned`]).
    pub fn clean_rendered_output(&self, content: &str) -> (r: String)
        ensures
            r@ == cleaned(content@),
    {
        string_of(&clean_chars(&chars_of(content)))
    }
}

/// `p` begins with the placeholder opening.
pub open spec fn opens_placeholder(p: Seq<char>) -> bool {
    p.len() >= 2 && p[0] == '{' && p[1] == '{'
}

proof fn lemma_opening_occurs(s: Seq<char>, p: Seq<char>, i: int)
    requires
        opens_placeholder(p),
        occurs_at(s, p, i),
    ensures
        contains(s, placeholder_open()),
{
    reveal_strlit("{{");
    assert(s.subrange(i, i + p.len())[0] == p[0]);
    assert(s.subrange(i, i + p.len())[1] == p[1]);
    assert(s.subrange(i, i + 2) =~= placeholder_open());
    assert(occurs_at(s, placeholder_open(), i));
}

proof fn lemma_absent_in_tail(s: Seq<char>)
    requires
        s.len() > 0,
        !contains(s, placeholder_open()),
    ensures
        !contains(s.subrange(1, s.len() as int), placeholder_open()),
{
    let t = s.subrange(1, s.len() as int);
    if contains(t, placeholder_open()) {
        let i = choose|i: int| occurs_at(t, placeholder_open(), i);
        assert(s.subrange(i + 1, i + 1 + placeholder_open().len()) =~= t.subrange(
            i,
            i + placeholder_open().len(),
        ));
        assert(occurs_at(s, placeholder_open(), i + 1));
    }
}

proof fn lemma_replace_absent(s: Seq<char>, p: Seq<char>, r: Seq<char>)
    requires
        opens_placeholder(p),
        !contains(s, placeholder_open()),
    ensures
        replace_all(s, p, r) == s,
    decreases s.len(),
{
    if s.len() > 0 {
        if starts_with(s, p) {
            lemma_opening_occurs(s, p, 0);
        }
        lemma_absent_in_tail(s);
        lemma_replace_absent(s.subrange(1, s.len() as int), p, r);
        assert(seq![s[0]] + s.subrange(1, s.len() as int) =~= s);
    }
}

proof fn lemma_substitute_path_absent(text: Seq<char>, path: Seq<char>, r: Seq<char>)
    requires
        !contains(text, placeholder_open()),
    ensures
        substitute_path(text, path, r) == text,
{
    reveal_strlit("{{ .");
    reveal_strlit("{{.");
    assert(opens_placeholder(spaced_placeholder(path)));
    assert(opens_placeholder(tight_placeholder(path)));
    assert(opens_placeholder(quoted_placeholder(path)));
    lemma_replace_absent(text, spaced_placeholder(path), r);
    lemma_replace_absent(text, tight_placeholder(path), r);
    lemma_replace_absent(text, quoted_placeholder(path), r);
}

proof fn lemma_substituted_absent(text: Seq<char>, t: Tree, prefix: Seq<char>, i: int)
    requires
        !contains(text, placeholder_open()),
    ensures
        substituted(text, t, prefix, i) == text,
    decreases t, child_count(t) - i,
{
    if 0 <= i < child_count(t) {
        match t {
            Tree::Mapping(es) => {
                let path = key_path(prefix, es[i].0);
                let v = es[i].1;
                lemma_substitute_path_absent(text, path, value_text(v));
                if is_composite(v) {
                    lemma_substituted_absent(text, v, path, 0);
                }
                lemma_substituted_absent(text, t, prefix, i + 1);
            },
            Tree::Sequence(items) => {
                let v = items[i];
                if is_composite(v) {
                    lemma_substituted_absent(text, v, index_path(prefix, i as nat), 0);
                }
                lemma_substituted_absent(text, t, prefix, i + 1);
            },
            _ => {},
        }
    }
}

proof fn lemma_strip_absent(s: Seq<char>)
    requires
        !contains(s, placeholder_open()),
    ensures
        strip_false_blocks(s) == s,
{
    reveal_strlit("{{- if false }}");
    lemma_first_from(s, open_marker(), 0);
    if let Some(j) = first_from(s, open_marker(), 0) {
        assert(opens_placeholder(open_marker()));
        lemma_opening_occurs(s, open_marker(), j);
    }
}

/// A template text with no placeholder opening renders to its cleaned text,
/// whatever the values.
pub proof fn lemma_render_without_placeholders(content: Seq<char>, values: Tree)
    requires
        !contains(content, placeholder_open()),
    ensures
        rendered(content, values) == cleaned(content),
{
    lemma_substituted_absent(content, values, "Values"@, 0);
    lemma_strip_absent(content);
}

proof fn lemma_kept_lines_kept(ls: Seq<Seq<char>>)
    ensures
        forall|k: int| 0 <= k < kept_lines(ls).len() ==> keep_line(#[trigger] kept_lines(ls)[k]),
    decreases ls.len(),
{
    if ls.len() > 0 {
        let prev = kept_lines(ls.drop_last());
        lemma_kept_lines_kept(ls.drop_last());
        if keep_line(ls.last()) {
            assert forall|k: int| 0 <= k < prev.len() + 1 implies keep_line(
                #[trigger] prev.push(ls.last())[k],
            ) by {
                if k < prev.len() {
                    assert(prev.push(ls.last())[k] == prev[k]);
                }
            }
        }
    }
}

proof fn lemma_join_absent(ls: Seq<Seq<char>>)
    requires
        forall|k: int| 0 <= k < ls.len() ==> !contains(#[trigger] ls[k], placeholder_open()),
    ensures
        !contains(join_lines(ls), placeholder_open()),
    decreases ls.len(),
{
    reveal_strlit("{{");
    let q = placeholder_open();
    if ls.len() == 1 {
        assert(!contains(ls[0], q));
    } else if ls.len() > 1 {
        let a = join_lines(ls.drop_last());
        let l = ls.last();
        assert(!contains(l, q));
        lemma_join_absent(ls.drop_last());
        let j = join_lines(ls);
        assert(j == a + seq!['\n'] + l);
        if contains(j, q) {
            let i = choose|i: int| occurs_at(j, q, i);
            assert(j.subrange(i, i + 2)[0] == '{');
            assert(j.subrange(i, i + 2)[1] == '{');
            assert(j[i] == '{' && j[i + 1] == '{');
            if i + 2 <= a.len() {
                assert(a.subrange(i, i + 2) =~= j.subrange(i, i + 2));
                assert(occurs_at(a, q, i));
            } else if i >= a.len() + 1 {
                let m = i - a.len() - 1;
                assert(l.subrange(m, m + 2) =~= j.subrange(i, i + 2));
                assert(occurs_at(l, q, m));
            } else {
                assert(j[a.len() as int] == '\n');
            }
        }
    }
}

/// Rendered output never holds a placeholder opening: placeholders that found
/// no value are dropped with their lines by cleanup.
pub proof fn lemma_rendered_has_no_placeholder(content: Seq<char>, values: Tree)
    ensures
        !contains(rendered(content, values), placeholder_open()),
{
    let ls = kept_lines(lines(strip_false_blocks(substituted(content, values, "Values"@, 0))));
    lemma_kept_lines_kept(lines(strip_false_blocks(substituted(content, values, "Values"@, 0))));
    lemma_join_absent(ls);
}

/// `p` has the shape of a placeholder: two opening braces, text without
/// braces, two closing braces.
pub open spec fn braced(p: Seq<char>) -> bool {
    &&& p.len() >= 4
    &&& p[0] == '{' && p[1] == '{'
    &&& p[p.len() - 2] == '}' && p[p.len() - 1] == '}'
    &&& forall|i: int| 2 <= i < p.len() - 2 ==> p[i] != '{' && p[i] != '}'
}

proof fn lemma_occurs_char(s: Seq<char>, p: Seq<char>, x: int, i: int)
    requires
        occurs_at(s, p, x),
        0 <= i < p.len(),
    ensures
        s[x + i] == p[i],
{
    assert(s.subrange(x, x + p.len())[i] == p[i]);
}

proof fn lemma_braced_same_start(s: Seq<char>, p: Seq<char>, q: Seq<char>, x: int)
    requires
        braced(p),
        braced(q),
        p.len() < q.len(),
    ensures
        !(occurs_at(s, p, x) && occurs_at(s, q, x)),
{
    if occurs_at(s, p, x) && occurs_at(s, q, x) {
        let i = p.len() - 1;
        lemma_occurs_char(s, p, x, i);
        lemma_occurs_char(s, q, x, i);
        if i < q.len() - 2 {
            assert(q[i] != '}');
        } else {
            let j = p.len() - 2;
            lemma_occurs_char(s, p, x, j);
            lemma_occurs_char(s, q, x, j);
            assert(q[j] != '}');
        }
    }
}

proof fn lemma_braced_later_start(s: Seq<char>, p: Seq<char>, q: Seq<char>, x: int, y: int)
    requires
        braced(p),
        braced(q),
        x < y < x + p.len(),
    ensures
        !(occurs_at(s, p, x) && occurs_at(s, q, y)),
{
    if occurs_at(s, p, x) && occurs_at(s, q, y) {
        let d = y - x;
        lemma_occurs_char(s, p, x, d);
        lemma_occurs_char(s, q, y, 0);
        if d == 1 {
            lemma_occurs_char(s, p, x, 2);
            lemma_occurs_char(s, q, y, 1);
        }
    }
}

/// Two occurrences of different placeholder shapes never overlap.
proof fn lemma_braced_disjoint(s: Seq<char>, p: Seq<char>, x: int, q: Seq<char>, y: int)
    requires
        braced(p),
        braced(q),
        p != q,
        occurs_at(s, p, x),
        occurs_at(s, q, y),
    ensures
        x + p.len() <= y || y + q.len() <= x,
{
    if x < y && y < x + p.len() {
        lemma_braced_later_start(s, p, q, x, y);
    } else if y < x && x < y + q.len() {
        lemma_braced_later_start(s, q, p, y, x);
    } else if x == y {
        if p.len() < q.len() {
            lemma_braced_same_start(s, p, q, x);
        } else if q.len() < p.len() {
            lemma_braced_same_start(s, q, p, x);
        } else {
            assert forall|i: int| 0 <= i < p.len() implies p[i] == q[i] by {
                lemma_occurs_char(s, p, x, i);
                lemma_occurs_char(s, q, x, i);
            }
            assert(p =~= q);
        }
    }
}

proof fn lemma_replace_prefix_free(s: Seq<char>, p: Seq<char>, r: Seq<char>, m: int)
    requires
        p.len() > 0,
        0 <= m <= s.len(),
        forall|k: int| 0 <= k < m ==> !occurs_at(s, p, k),
    ensures
        replace_all(s, p, r) == s.subrange(0, m) + replace_all(
            s.subrange(m, s.len() as int),
            p,
            r,
        ),
    decreases m,
{
    if m == 0 {
        assert(s.subrange(0, 0) + replace_all(s.subrange(0, s.len() as int), p, r) =~= replace_all(
            s,
            p,
            r,
        )) by {
            assert(s.subrange(0, s.len() as int) =~= s);
        }
    } else {
        assert(!occurs_at(s, p, 0));
        let s1 = s.subrange(1, s.len() as int);
        assert forall|k: int| 0 <= k < m - 1 implies !occurs_at(s1, p, k) by {
            if occurs_at(s1, p, k) {
                assert(s.subrange(k + 1, k + 1 + p.len()) =~= s1.subrange(k, k + p.len()));
                assert(occurs_at(s, p, k + 1));
            }
        }
        lemma_replace_prefix_free(s1, p, r, m - 1);
        assert(s1.subrange(m - 1, s1.len() as int) =~= s.subrange(m, s.len() as int));
        assert(seq![s[0]] + s1.subrange(0, m - 1) =~= s.subrange(0, m));
    }
}

/// Replacing one placeholder shape leaves every occurrence of another intact.
proof fn lemma_replace_keeps(s: Seq<char>, p: Seq<char>, r: Seq<char>, q: Seq<char>, y: int)
    requires
        braced(p),
        braced(q),
        p != q,
        occurs_at(s, q, y),
    ensures
        contains(replace_all(s, p, r), q),
    decreases s.len(),
{
    if starts_with(s, p) {
        lemma_braced_disjoint(s, p, 0, q, y);
        let s2 = s.subrange(p.len() as int, s.len() as int);
        assert(s2.subrange(y - p.len(), y - p.len() + q.len()) =~= s.subrange(y, y + q.len()));
        lemma_replace_keeps(s2, p, r, q, y - p.len());
        let rest = replace_all(s2, p, r);
        let z = choose|z: int| occurs_at(rest, q, z);
        assert((r + rest).subrange(r.len() + z, r.len() + z + q.len()) =~= rest.subrange(
            z,
            z + q.len(),
        ));
        assert(occurs_at(r + rest, q, r.len() + z));
    } else if y == 0 {
        assert forall|k: int| 0 <= k < q.len() implies !occurs_at(s, p, k) by {
            if occurs_at(s, p, k) {
                lemma_braced_disjoint(s, p, k, q, 0);
            }
        }
        lemma_replace_prefix_free(s, p, r, q.len() as int);
        let out = replace_all(s, p, r);
        assert(out.subrange(0, q.len() as int) =~= s.subrange(0, q.len() as int));
        assert(occurs_at(out, q, 0));
    } else {
        let s1 = s.subrange(1, s.len() as int);
        assert(s1.subrange(y - 1, y - 1 + q.len()) =~= s.subrange(y, y + q.len()));
        lemma_replace_keeps(s1, p, r, q, y - 1);
        let rest = replace_all(s1, p, r);
        let z = choose|z: int| occurs_at(rest, q, z);
        assert((seq![s[0]] + rest).subrange(z + 1, z + 1 + q.len()) =~= rest.subrange(
            z,
            z + q.len(),
        ));
        assert(occurs_at(seq![s[0]] + rest, q, z + 1));
    }
}

/// The three spellings of the placeholder for `path` have the placeholder
/// shape and differ from `q`.
pub open spec fn spellings_avoid(path: Seq<char>, q: Seq<char>) -> bool {
    &&& braced(spaced_placeholder(path)) && spaced_placeholder(path) != q
    &&& braced(tight_placeholder(path)) && tight_placeholder(path) != q
    &&& braced(quoted_placeholder(path)) && quoted_placeholder(path) != q
}

/// No path that substitution visits in `t` (from its `i`-th child on, `t`
/// standing at `prefix`) is spelled as `q`, and every path spells a
/// placeholder shape.
pub open spec fn leaves_placeholder(t: Tree, prefix: Seq<char>, i: int, q: Seq<char>) -> bool
    decreases t, child_count(t) - i,
{
    if i < 0 || i >= child_count(t) {
        true
    } else {
        match t {
            Tree::Mapping(es) => {
                let path = key_path(prefix, es[i].0);
                let v = es[i].1;
                &&& spellings_avoid(path, q)
                &&& is_composite(v) ==> leaves_placeholder(v, path, 0, q)
                &&& leaves_placeholder(t, prefix, i + 1, q)
            },
            Tree::Sequence(items) => {
                let v = items[i];
                &&& is_composite(v) ==> leaves_placeholder(v, index_path(prefix, i as nat), 0, q)
                &&& leaves_placeholder(t, prefix, i + 1, q)
            },
            _ => true,
        }
    }
}

proof fn lemma_contains_replace_keeps(s: Seq<char>, p: Seq<char>, r: Seq<char>, q: Seq<char>)
    requires
        braced(p),
        braced(q),
        p != q,
        contains(s, q),
    ensures
        contains(replace_all(s, p, r), q),
{
    let y = choose|y: int| occurs_at(s, q, y);
    lemma_replace_keeps(s, p, r, q, y);
}

/// Substitution from the `i`-th child of `t` on, `t` standing at `prefix`,
/// keeps every placeholder `q` that none of the paths it visits spells.
pub proof fn lemma_substituted_keeps(text: Seq<char>, t: Tree, prefix: Seq<char>, i: int, q: Seq<char>)
    requires
        braced(q),
        leaves_placeholder(t, prefix, i, q),
        contains(text, q),
    ensures
        contains(substituted(text, t, prefix, i), q),
    decreases t, child_count(t) - i,
{
    if 0 <= i < child_count(t) {
        match t {
            Tree::Mapping(es) => {
                let path = key_path(prefix, es[i].0);
                let v = es[i].1;
                let r = value_text(v);
                let a = replace_all(text, spaced_placeholder(path), r);
                let b = replace_all(a, tight_placeholder(path), r);
                lemma_contains_replace_keeps(text, spaced_placeholder(path), r, q);
                lemma_contains_replace_keeps(a, tight_placeholder(path), r, q);
                lemma_contains_replace_keeps(b, quoted_placeholder(path), r, q);
                let t1 = substitute_path(text, path, r);
                if is_composite(v) {
                    lemma_substituted_keeps(t1, v, path, 0, q);
                    lemma_substituted_keeps(substituted(t1, v, path, 0), t, prefix, i + 1, q);
                } else {
                    lemma_substituted_keeps(t1, t, prefix, i + 1, q);
                }
            },
            Tree::Sequence(items) => {
                let v = items[i];
                if is_composite(v) {
                    lemma_substituted_keeps(text, v, index_path(prefix, i as nat), 0, q);
                    lemma_substituted_keeps(
                        substituted(text, v, index_path(prefix, i as nat), 0),
                        t,
                        prefix,
                        i + 1,
                        q,
                    );
                } else {
                    lemma_substituted_keeps(text, t, prefix, i + 1, q);
                }
            },
            _ => {},
        }
    }
}

/// A placeholder that the values resolve under none of their paths is still
/// in the text after substitution, and cleanup then drops it, so the rendered
/// output holds no placeholder opening.
pub proof fn lemma_unresolved_placeholder_kept(content: Seq<char>, values: Tree, q: Seq<char>)
    requires
        braced(q),
        leaves_placeholder(values, "Values"@, 0, q),
        contains(content, q),
    ensures
        contains(substituted(content, values, "Values"@, 0), q),
        !contains(rendered(content, values), placeholder_open()),
{
    lemma_substituted_keeps(content, values, "Values"@, 0, q);
    lemma_rendered_has_no_placeholder(content, values);
}

} // verus!
