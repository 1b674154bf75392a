//! Which files of a chart directory are templates and which are values files.
//! Reading the directory is the caller's part; the choice and its order are here.
use vstd::prelude::*;

use crate::text::{
    chars_of, contains, contains_exec, occurs_at, occurs_at_exec, same_chars, sort_texts,
    starts_with, strings_view, texts_sorted,
};

verus! {

/// `s` ends with `p`.
pub open spec fn ends_with(s: Seq<char>, p: Seq<char>) -> bool {
    occurs_at(s, p, s.len() - p.len())
}

fn ends_with_exec(s: &Vec<char>, p: &Vec<char>) -> (r: bool)
    ensures
        r == ends_with(s@, p@),
{
    if p.len() > s.len() {
        return false;
    }
    occurs_at_exec(s, p, s.len() - p.len())
}

/// A template file name: extension `yaml` or `yml` (after a `.` that is not
/// the name's first character), and neither `test` nor `NOTES` in the name.
pub open spec fn is_template_name(f: Seq<char>) -> bool {
    ((ends_with(f, ".yaml"@) && f.len() > 5) || (ends_with(f, ".yml"@) && f.len() > 4)) && !contains(
        f,
        "test"@,
    ) && !contains(f, "NOTES"@)
}

/// A values file name: `values.yaml`, `values.yml`, or `values-` followed by
/// anything and ending in `.yaml` or `.yml`.
pub open spec fn is_values_name(f: Seq<char>) -> bool {
    f == "values.yaml"@ || f == "values.yml"@ || (starts_with(f, "values-"@) && (ends_with(
        f,
        ".yaml"@,
    ) || ends_with(f, ".yml"@)))
}

/// The names of `ns` that are template file names, in their order.
pub open spec fn template_names(ns: Seq<String>) -> Seq<String>
    decreases ns.len(),
{
    if ns.len() == 0 {
        Seq::empty()
    } else if is_template_name(ns.last()@) {
        template_names(ns.drop_last()).push(ns.last())
    } else {
        template_names(ns.drop_last())
    }
}

/// The names of `ns` that are values file names, in their order.
pub open spec fn values_names(ns: Seq<String>) -> Seq<String>
    decreases ns.len(),
{
    if ns.len() == 0 {
        Seq::empty()
    } else if is_values_name(ns.last()@) {
        values_names(ns.drop_last()).push(ns.last())
    } else {
        values_names(ns.drop_last())
    }
}

/// Whether `name` is a template file name.
pub fn is_template_file_name(name: &str) -> (r: bool)
    ensures
        r == is_template_name(name@),
{
    proof {
        reveal_strlit(".yaml");
        reveal_strlit(".yml");
    }
    let f = chars_of(name);
    let yaml = ends_with_exec(&f, &chars_of(".yaml")) && f.len() > 5;
    let yml = ends_with_exec(&f, &chars_of(".yml")) && f.len() > 4;
    (yaml || yml) && !contains_exec(&f, &chars_of("test")) && !contains_exec(
        &f,
        &chars_of("NOTES"),
    )
}

/// Whether `name` is a values file name.
pub fn is_values_file_name(name: &str) -> (r: bool)
    ensures
        r == is_values_name(name@),
{
    let f = chars_of(name);
    same_chars(&f, &chars_of("values.yaml")) || same_chars(&f, &chars_of("values.yml")) || (
    occurs_at_exec(&f, &chars_of("values-"), 0) && (ends_with_exec(&f, &chars_of(".yaml"))
        || ends_with_exec(&f, &chars_of(".yml"))))
}

/// The template files among the file names `names`, in order.
pub fn select_template_files(names: &Vec<String>) -> (r: Vec<String>)
    ensures
        r@.to_multiset() == template_names(names@).to_multiset(),
        texts_sorted(strings_view(r@)),
{
    let mut chosen: Vec<String> = Vec::new();
    let mut i: usize = 0;
    while i < names.len()
        invariant
            i <= names@.len(),
            chosen@ == template_names(names@.subrange(0, i as int)),
        decreases names@.len() - i,
    {
        assert(names@.subrange(0, i + 1).drop_last() =~= names@.subrange(0, i as int));
        if is_template_file_name(names[i].as_str()) {
            chosen.push(names[i].clone());
        }
        i += 1;
    }
    assert(names@.subrange(0, i as int) =~= names@);
    sort_texts(chosen)
}

/// The values files among the file names `names`, in order.
pub fn select_values_files(names: &Vec<String>) -> (r: Vec<String>)
    ensures
        r@.to_multiset() == values_names(names@).to_multiset(),
        texts_sorted(strings_view(r@)),
{
    let mut chosen: Vec<String> = Vec::new();
    let mut i: usize = 0;
    while i < names.len()
        invariant
            i <= names@.len(),
            chosen@ == values_names(names@.subrange(0, i as int)),
        decreases names@.len() - i,
    {
        assert(names@.subrange(0, i + 1).drop_last() =~= names@.subrange(0, i as int));
        if is_values_file_name(names[i].as_str()) {
            chosen.push(names[i].clone());
        }
        i += 1;
    }
    assert(names@.subrange(0, i as int) =~= names@);
    sort_texts(chosen)
}

} // verus!
