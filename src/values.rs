//! The nested value model that templates are rendered against, and the
//! recursive merge of two value trees.
use vstd::prelude::*;

use crate::yaml::{parse_yaml, parsed_yaml};

verus! {

/// Mathematical model of a value tree.
pub enum Tree {
    Null,
    Bool(bool),
    /// A number, held as its canonical decimal text.
    Number(Seq<char>),
    Text(Seq<char>),
    Sequence(Seq<Tree>),
    Mapping(Seq<(Seq<char>, Tree)>),
}

/// A nested value: mappings, sequences and scalars.
#[derive(Debug)]
pub enum ValueTree {
    Null,
    Bool(bool),
    /// A number, held as its canonical decimal text.
    Number(String),
    Text(String),
    Sequence(Vec<ValueTree>),
    /// Entries in source order; keys are unique in a well-formed tree.
    Mapping(Vec<(String, ValueTree)>),
}

impl View for ValueTree {
    type V = Tree;

    open spec fn view(&self) -> Tree
        decreases self,
    {
        match self {
            ValueTree::Null => Tree::Null,
            ValueTree::Bool(b) => Tree::Bool(*b),
            ValueTree::Number(n) => Tree::Number(n@),
            ValueTree::Text(s) => Tree::Text(s@),
            ValueTree::Sequence(items) => Tree::Sequence(
                Seq::new(
                    items@.len(),
                    |i: int|
                        if 0 <= i < items@.len() {
                            items@[i].view()
                        } else {
                            Tree::Null
                        },
                ),
            ),
            ValueTree::Mapping(entries) => Tree::Mapping(
                Seq::new(
                    entries@.len(),
                    |i: int|
                        (
                            entries@[i].0@,
                            if 0 <= i < entries@.len() {
                                entries@[i].1.view()
                            } else {
                                Tree::Null
                            },
                        ),
                ),
            ),
        }
    }
}

/// The model of a list of mapping entries.
pub open spec fn entries_view(v: Seq<(String, ValueTree)>) -> Seq<(Seq<char>, Tree)> {
    Seq::new(v.len(), |i: int| (v[i].0@, v[i].1@))
}

/// The model of a list of sequence items.
pub open spec fn items_view(v: Seq<ValueTree>) -> Seq<Tree> {
    Seq::new(v.len(), |i: int| v[i]@)
}

/// The model of a mapping is the model of its entries.
pub proof fn lemma_mapping_view(entries: Vec<(String, ValueTree)>)
    ensures
        ValueTree::Mapping(entries)@ == Tree::Mapping(entries_view(entries@)),
{
    let t = ValueTree::Mapping(entries);
    assert(t@ is Mapping);
    assert(t@->Mapping_0.len() == entries@.len());
    assert forall|i: int| 0 <= i < entries@.len() implies t@->Mapping_0[i] == entries_view(
        entries@,
    )[i] by {
        assert(t@->Mapping_0[i].0 == entries@[i].0@);
        assert(t@->Mapping_0[i].1 == entries@[i].1@);
    }
    assert(t@->Mapping_0 =~= entries_view(entries@));
}

/// The model of a sequence is the model of its items.
pub proof fn lemma_sequence_view(items: Vec<ValueTree>)
    ensures
        ValueTree::Sequence(items)@ == Tree::Sequence(items_view(items@)),
{
    let t = ValueTree::Sequence(items);
    assert(t@ is Sequence);
    assert(t@->Sequence_0 =~= items_view(items@));
}

/// `es` holds an entry with key `k`.
pub open spec fn has_key(es: Seq<(Seq<char>, Tree)>, k: Seq<char>) -> bool {
    exists|j: int| 0 <= j < es.len() && es[j].0 == k
}

/// The position of the entry with key `k` in `es`.
pub open spec fn key_index(es: Seq<(Seq<char>, Tree)>, k: Seq<char>) -> int {
    choose|j: int| 0 <= j < es.len() && es[j].0 == k
}

/// The value stored under key `k` in `es`.
pub open spec fn value_at(es: Seq<(Seq<char>, Tree)>, k: Seq<char>) -> Tree {
    es[key_index(es, k)].1
}

/// No two entries of `es` share a key.
pub open spec fn keys_unique(es: Seq<(Seq<char>, Tree)>) -> bool {
    forall|i: int, j: int| 0 <= i < j < es.len() ==> es[i].0 != es[j].0
}

/// Every mapping in the tree has unique keys.
pub open spec fn well_formed(t: Tree) -> bool
    decreases t,
{
    match t {
        Tree::Sequence(items) => forall|i: int| 0 <= i < items.len() ==> well_formed(items[i]),
        Tree::Mapping(es) => keys_unique(es) && forall|i: int|
            0 <= i < es.len() ==> well_formed(es[i].1),
        _ => true,
    }
}

/// The entries of `o` whose keys `b` does not hold, in their order in `o`.
pub open spec fn added_entries(b: Seq<(Seq<char>, Tree)>, o: Seq<(Seq<char>, Tree)>) -> Seq<
    (Seq<char>, Tree),
>
    decreases o.len(),
{
    if o.len() == 0 {
        Seq::empty()
    } else {
        let rest = added_entries(b, o.drop_last());
        if has_key(b, o.last().0) {
            rest
        } else {
            rest.push(o.last())
        }
    }
}

/// Merge of two trees, `over` taking precedence. Two mappings merge key by key:
/// every key of `base` keeps its place, with its value merged with the value of
/// `over` under the same key where there is one; the keys only `over` holds
/// follow. In every other pairing `over` replaces `base` whole.
pub open spec fn merged(base: Tree, over: Tree) -> Tree
    decreases over,
{
    match (base, over) {
        (Tree::Mapping(b), Tree::Mapping(o)) => Tree::Mapping(
            Seq::new(
                b.len(),
                |i: int|
                    (
                        b[i].0,
                        if exists|j: int| 0 <= j < o.len() && o[j].0 == b[i].0 {
                            let j = choose|j: int| 0 <= j < o.len() && o[j].0 == b[i].0;
                            merged(b[i].1, o[j].1)
                        } else {
                            b[i].1
                        },
                    ),
            ) + added_entries(b, o),
        ),
        _ => over,
    }
}

impl ValueTree {
    /// An independent copy of the tree.
    pub fn copy_tree(&self) -> (r: ValueTree)
        ensures
            r@ == self@,
        decreases self,
    {
        match self {
            ValueTree::Null => ValueTree::Null,
            ValueTree::Bool(b) => ValueTree::Bool(*b),
            ValueTree::Number(n) => ValueTree::Number(n.clone()),
            ValueTree::Text(s) => ValueTree::Text(s.clone()),
            ValueTree::Sequence(items) => {
                let out = copy_items(items);
                proof {
                    lemma_sequence_view(out);
                    lemma_sequence_view(*items);
                }
                ValueTree::Sequence(out)
            },
            ValueTree::Mapping(entries) => {
                let out = copy_entries(entries);
                proof {
                    lemma_mapping_view(out);
                    lemma_mapping_view(*entries);
                }
                ValueTree::Mapping(out)
            },
        }
    }
}

fn copy_items(items: &Vec<ValueTree>) -> (out: Vec<ValueTree>)
    ensures
        items_view(out@) == items_view(items@),
    decreases items,
{
    let mut out: Vec<ValueTree> = Vec::new();
    let mut i: usize = 0;
    while i < items.len()
        invariant
            i <= items@.len(),
            out@.len() == i,
            forall|k: int| 0 <= k < i ==> out@[k]@ == items@[k]@,
        decreases items@.len() - i,
    {
        proof {
            assert(decreases_to!(*items => items[i as int]));
        }
        let c = items[i].copy_tree();
        out.push(c);
        i += 1;
    }
    assert(items_view(out@) =~= items_view(items@));
    out
}

fn copy_entries(entries: &Vec<(String, ValueTree)>) -> (out: Vec<(String, ValueTree)>)
    ensures
        entries_view(out@) == entries_view(entries@),
    decreases entries,
{
    let mut out: Vec<(String, ValueTree)> = Vec::new();
    let mut i: usize = 0;
    while i < entries.len()
        invariant
            i <= entries@.len(),
            out@.len() == i,
            forall|k: int|
                0 <= k < i ==> out@[k].0@ == entries@[k].0@ && out@[k].1@ == entries@[k].1@,
        decreases entries@.len() - i,
    {
        proof {
            assert(decreases_to!(*entries => entries[i as int]));
        }
        let c = entries[i].1.copy_tree();
        out.push((entries[i].0.clone(), c));
        i += 1;
    }
    assert(entries_view(out@) =~= entries_view(entries@));
    out
}

/// Position of the first entry of `entries` whose key is `key`.
pub fn find_entry(entries: &Vec<(String, ValueTree)>, key: &String) -> (r: Option<usize>)
    ensures
        match r {
            Some(j) => j < entries@.len() && entries@[j as int].0@ == key@ && forall|k: int|
                0 <= k < j ==> entries@[k].0@ != key@,
            None => forall|k: int| 0 <= k < entries@.len() ==> entries@[k].0@ != key@,
        },
{
    let mut j: usize = 0;
    while j < entries.len()
        invariant
            j <= entries@.len(),
            forall|k: int| 0 <= k < j ==> entries@[k].0@ != key@,
        decreases entries@.len() - j,
    {
        if entries[j].0 == *key {
            return Some(j);
        }
        j += 1;
    }
    None
}

/// In entries with unique keys, the entry at `j` is the one found under its key.
pub proof fn lemma_unique_index(es: Seq<(Seq<char>, Tree)>, j: int)
    requires
        keys_unique(es),
        0 <= j < es.len(),
    ensures
        has_key(es, es[j].0),
        key_index(es, es[j].0) == j,
        value_at(es, es[j].0) == es[j].1,
{
    assert(has_key(es, es[j].0));
    let i = key_index(es, es[j].0);
    assert(es[i].0 == es[j].0);
    if i < j {
        assert(es[i].0 != es[j].0);
    } else if j < i {
        assert(es[j].0 != es[i].0);
    }
}

/// Merge of two value trees, `over` taking precedence (see [`merged`]).
pub fn merge_trees(base: &ValueTree, over: &ValueTree) -> (r: ValueTree)
    requires
        well_formed(over@),
    ensures
        r@ == merged(base@, over@),
    decreases over,
{
    if let ValueTree::Mapping(b) = base {
        if let ValueTree::Mapping(o) = over {
            proof {
                lemma_mapping_view(*b);
                lemma_mapping_view(*o);
            }
            let out = merge_entries(b, o);
            proof {
                lemma_mapping_view(out);
            }
            return ValueTree::Mapping(out);
        }
    }
    over.copy_tree()
}

fn merge_entries(b: &Vec<(String, ValueTree)>, o: &Vec<(String, ValueTree)>) -> (out: Vec<
    (String, ValueTree),
>)
    requires
        well_formed(Tree::Mapping(entries_view(o@))),
    ensures
        Tree::Mapping(entries_view(out@)) == merged(
            Tree::Mapping(entries_view(b@)),
            Tree::Mapping(entries_view(o@)),
        ),
    decreases o,
{
    let ghost bv = entries_view(b@);
    let ghost ov = entries_view(o@);
    let ghost m = merged(Tree::Mapping(bv), Tree::Mapping(ov))->Mapping_0;
    let mut out: Vec<(String, ValueTree)> = Vec::new();
    let mut i: usize = 0;
    while i < b.len()
        invariant
            i <= b@.len(),
            bv == entries_view(b@),
            ov == entries_view(o@),
            m == merged(Tree::Mapping(bv), Tree::Mapping(ov))->Mapping_0,
            well_formed(Tree::Mapping(ov)),
            out@.len() == i,
            forall|k: int| 0 <= k < i ==> (out@[k].0@, out@[k].1@) == m[k],
        decreases b@.len() - i,
    {
        let key = b[i].0.clone();
        match find_entry(o, &key) {
            Some(j) => {
                proof {
                    assert(decreases_to!(*o => o[j as int]));
                    assert(ov[j as int].0 == bv[i as int].0);
                    lemma_unique_index(ov, j as int);
                    assert(well_formed(ov[j as int].1));
                }
                let v = merge_trees(&b[i].1, &o[j].1);
                out.push((key, v));
            },
            None => {
                proof {
                    assert(!exists|j: int| 0 <= j < ov.len() && ov[j].0 == bv[i as int].0);
                }
                let v = b[i].1.copy_tree();
                out.push((key, v));
            },
        }
        i += 1;
    }
    let ghost front = entries_view(out@);
    assert(front =~= m.subrange(0, b@.len() as int));
    let mut j: usize = 0;
    while j < o.len()
        invariant
            j <= o@.len(),
            bv == entries_view(b@),
            ov == entries_view(o@),
            entries_view(out@) == front + added_entries(bv, ov.subrange(0, j as int)),
        decreases o@.len() - j,
    {
        let ghost prev = out@;
        proof {
            assert(ov.subrange(0, j + 1).drop_last() =~= ov.subrange(0, j as int));
        }
        let ghost s1 = ov.subrange(0, j + 1);
        assert(s1.last() == ov[j as int]);
        match find_entry(b, &o[j].0) {
            Some(t) => {
                assert(bv[t as int].0 == ov[j as int].0);
                assert(has_key(bv, s1.last().0));
            },
            None => {
                assert(!has_key(bv, s1.last().0));
                let v = o[j].1.copy_tree();
                out.push((o[j].0.clone(), v));
                assert(entries_view(out@) =~= entries_view(prev).push(ov[j as int]));
            },
        }
        j += 1;
    }
    assert(ov.subrange(0, o@.len() as int) =~= ov);
    assert(entries_view(out@) =~= m);
    out
}

/// Merging two well-formed mappings yields a well-formed mapping whose keys
/// are those of either side. A key that both sides hold maps to the merge of
/// the two values, a key that only the override holds keeps the override's
/// value, and a key that only the base holds keeps the base's value.
pub proof fn lemma_merge_mappings(a: Tree, b: Tree)
    requires
        a is Mapping,
        b is Mapping,
        well_formed(a),
        well_formed(b),
    ensures
        merged(a, b) is Mapping,
        keys_unique(merged(a, b)->Mapping_0),
        forall|k: Seq<char>|
            has_key(merged(a, b)->Mapping_0, k) <==> has_key(a->Mapping_0, k) || has_key(
                b->Mapping_0,
                k,
            ),
        forall|k: Seq<char>|
            has_key(a->Mapping_0, k) && has_key(b->Mapping_0, k) ==> value_at(
                merged(a, b)->Mapping_0,
                k,
            ) == merged(value_at(a->Mapping_0, k), value_at(b->Mapping_0, k)),
        forall|k: Seq<char>|
            !has_key(a->Mapping_0, k) && has_key(b->Mapping_0, k) ==> value_at(
                merged(a, b)->Mapping_0,
                k,
            ) == value_at(b->Mapping_0, k),
        forall|k: Seq<char>|
            has_key(a->Mapping_0, k) && !has_key(b->Mapping_0, k) ==> value_at(
                merged(a, b)->Mapping_0,
                k,
            ) == value_at(a->Mapping_0, k),
{
    let ea = a->Mapping_0;
    let eb = b->Mapping_0;
    let r = merged(a, b)->Mapping_0;
    let n = ea.len();
    let added = added_entries(ea, eb);
    lemma_added_entries(ea, eb);
    assert(r == Seq::new(
        n,
        |i: int|
            (
                ea[i].0,
                if exists|j: int| 0 <= j < eb.len() && eb[j].0 == ea[i].0 {
                    let j = choose|j: int| 0 <= j < eb.len() && eb[j].0 == ea[i].0;
                    merged(ea[i].1, eb[j].1)
                } else {
                    ea[i].1
                },
            ),
    ) + added);
    assert(r.len() == n + added.len());
    assert forall|i: int| 0 <= i < n implies r[i].0 == ea[i].0 by {}
    assert forall|i: int| 0 <= i < added.len() implies r[n + i] == added[i] by {}
    assert(keys_unique(r)) by {
        assert forall|i: int, j: int| 0 <= i < j < r.len() implies r[i].0 != r[j].0 by {
            if j < n {
                assert(ea[i].0 != ea[j].0);
            } else if i < n {
                assert(has_key(added, added[j - n].0));
                assert(has_key(ea, ea[i].0));
            } else {
                assert(added[i - n].0 != added[j - n].0);
            }
        }
    }
    assert forall|k: Seq<char>|
        has_key(r, k) <==> has_key(ea, k) || has_key(eb, k) by {
        if has_key(r, k) {
            let i = key_index(r, k);
            if i >= n {
                assert(added[i - n].0 == k);
                assert(has_key(added, k));
            } else {
                assert(ea[i].0 == k);
            }
        }
        if has_key(ea, k) {
            let i = key_index(ea, k);
            assert(r[i].0 == k);
        } else if has_key(eb, k) {
            assert(has_key(added, k));
            let i = key_index(added, k);
            assert(r[n + i].0 == k);
        }
    }
    assert forall|k: Seq<char>| has_key(ea, k) implies value_at(r, k) == (if has_key(eb, k) {
        merged(value_at(ea, k), value_at(eb, k))
    } else {
        value_at(ea, k)
    }) by {
        let i = key_index(ea, k);
        lemma_unique_index(ea, i);
        assert(r[i].0 == k);
        lemma_unique_index(r, i);
        if has_key(eb, k) {
            let j = key_index(eb, k);
            lemma_unique_index(eb, j);
            assert(exists|j: int| 0 <= j < eb.len() && eb[j].0 == ea[i].0);
        }
    }
    assert forall|k: Seq<char>| !has_key(ea, k) && has_key(eb, k) implies value_at(r, k)
        == value_at(eb, k) by {
        assert(has_key(added, k));
        let i = key_index(added, k);
        lemma_unique_index(added, i);
        assert(r[n + i].0 == k);
        lemma_unique_index(r, n + i);
    }
}

proof fn lemma_added_entries(b: Seq<(Seq<char>, Tree)>, o: Seq<(Seq<char>, Tree)>)
    requires
        keys_unique(o),
    ensures
        keys_unique(added_entries(b, o)),
        forall|k: Seq<char>|
            has_key(added_entries(b, o), k) <==> has_key(o, k) && !has_key(b, k),
        forall|k: Seq<char>|
            has_key(added_entries(b, o), k) ==> value_at(added_entries(b, o), k) == value_at(
                o,
                k,
            ),
    decreases o.len(),
{
    if o.len() > 0 {
        let p = o.drop_last();
        assert(keys_unique(p));
        lemma_added_entries(b, p);
        let rest = added_entries(b, p);
        let last = o.last();
        assert forall|k: Seq<char>| has_key(p, k) implies has_key(o, k) && key_index(p, k)
            == key_index(o, k) && value_at(p, k) == value_at(o, k) by {
            let i = key_index(p, k);
            assert(o[i] == p[i]);
            lemma_unique_index(o, i);
            lemma_unique_index(p, i);
        }
        assert forall|k: Seq<char>| has_key(o, k) && k != last.0 implies has_key(p, k) by {
            let i = key_index(o, k);
            assert(i != o.len() - 1);
            assert(p[i] == o[i]);
        }
        assert(!has_key(p, last.0)) by {
            if has_key(p, last.0) {
                let i = key_index(p, last.0);
                assert(o[i].0 != o[o.len() - 1].0);
            }
        }
        lemma_unique_index(o, o.len() - 1);
        if !has_key(b, last.0) {
            let a = rest.push(last);
            assert forall|i: int| 0 <= i < rest.len() implies a[i] == rest[i] by {}
            assert(a[rest.len() as int] == last);
            assert(keys_unique(a)) by {
                assert forall|i: int, j: int| 0 <= i < j < a.len() implies a[i].0 != a[j].0 by {
                    if j < rest.len() {
                        assert(rest[i].0 != rest[j].0);
                    } else {
                        assert(has_key(rest, rest[i].0));
                    }
                }
            }
            assert forall|k: Seq<char>| has_key(a, k) <==> has_key(o, k) && !has_key(b, k) by {
                if has_key(a, k) {
                    let i = key_index(a, k);
                    if i < rest.len() {
                        assert(has_key(rest, k));
                    }
                }
                if has_key(rest, k) {
                    let i = key_index(rest, k);
                    assert(a[i].0 == k);
                }
                if k == last.0 {
                    assert(a[rest.len() as int].0 == k);
                }
            }
            assert forall|k: Seq<char>| has_key(a, k) implies value_at(a, k) == value_at(o, k) by {
                let i = key_index(a, k);
                lemma_unique_index(a, i);
                if i < rest.len() {
                    lemma_unique_index(rest, i);
                }
            }
        }
    }
}

/// One values set: a tree and the path of the document it was read from.
#[derive(Debug)]
pub struct Values {
    pub data: ValueTree,
    pub source: String,
}

impl Values {
    /// Reads a values set from the text of a values document; `None` where
    /// the text is not one YAML document.
    pub fn parse(content: &str, source: String) -> (r: Option<Values>)
        ensures
            match r {
                Some(v) => parsed_yaml(content@) == Some(v.data@) && well_formed(v.data@)
                    && v.source == source,
                None => parsed_yaml(content@) is None,
            },
    {
        match parse_yaml(content) {
            Some(data) => Some(Values { data, source }),
            None => None,
        }
    }

    /// The values set used when a chart has no values file: an empty mapping.
    pub fn empty() -> (r: Values)
        ensures
            r.data@ == Tree::Mapping(Seq::empty()),
            r.source@ == "empty"@,
    {
        let entries: Vec<(String, ValueTree)> = Vec::new();
        proof {
            lemma_mapping_view(entries);
            assert(entries_view(entries@) =~= Seq::empty());
        }
        Values { data: ValueTree::Mapping(entries), source: "empty".to_owned() }
    }

    /// Merge with `other`, whose values take precedence; the result carries
    /// `other`'s source.
    pub fn merge(&self, other: &Values) -> (r: Values)
        requires
            well_formed(other.data@),
        ensures
            r.data@ == merged(self.data@, other.data@),
            r.source@ == other.source@,
    {
        Values { data: merge_trees(&self.data, &other.data), source: other.source.clone() }
    }
}

} // verus!
