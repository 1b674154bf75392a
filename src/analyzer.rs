//! Extraction of typed records from rendered text, and the analysis of a
//! chart across its values sets.
use vstd::prelude::*;

use crate::chart::{ChartError, ChartMetadata, validation};
use crate::report::{
    ChartAnalysis, ResourceInfo, ResourceReport, counts_of_records, counts_view, groups_after,
    kind_count, lemma_counts_of_records,
    groups_view, has_kind, info_view, kind_pos, kinds_unique, reports_view,
};
use crate::template::{Template, rendered};
use crate::text::{
    chars_of, lemma_text_le_total, lemma_text_le_trans, occurs_at_exec, same_chars, slice_chars,
    split_on, split_on_exec, starts_with, string_of, text_le, text_le_exec, texts_sorted,
    texts_view, trim, trim_chars,
};
use crate::values::{
    Tree, ValueTree, Values, entries_view, find_entry, has_key, lemma_mapping_view,
    lemma_unique_index, value_at, well_formed,
};
use crate::yaml::{parse_document, parsed_document};

verus! {

/// A record extracted from one rendered document.
#[derive(Debug, Clone, PartialEq)]
pub struct ExtractedResource {
    pub kind: String,
    pub name: String,
    pub namespace: Option<String>,
}

/// Why an analysis failed.
#[derive(Debug, Clone, PartialEq)]
pub enum AnalysisError {
    /// The chart descriptor broke a validation rule.
    MetadataValidation(ChartError),
    /// More resources than a report can count.
    TooManyResources,
}

/// A record as text: kind, name, namespace.
pub open spec fn record_view(r: ExtractedResource) -> (Seq<char>, Seq<char>, Option<Seq<char>>) {
    (
        r.kind@,
        r.name@,
        match r.namespace {
            Some(n) => Some(n@),
            None => None,
        },
    )
}

/// The texts of a list of records.
pub open spec fn records_view(v: Seq<ExtractedResource>) -> Seq<
    (Seq<char>, Seq<char>, Option<Seq<char>>),
> {
    Seq::new(v.len(), |i: int| record_view(v[i]))
}

/// The trimmed pieces of `ps` that are neither empty nor comments.
pub open spec fn kept_segments(ps: Seq<Seq<char>>) -> Seq<Seq<char>>
    decreases ps.len(),
{
    if ps.len() == 0 {
        Seq::empty()
    } else {
        let t = trim(ps.last());
        let rest = kept_segments(ps.drop_last());
        if t.len() > 0 && !starts_with(t, "#"@) {
            rest.push(t)
        } else {
            rest
        }
    }
}

/// The documents of a rendered text: the trimmed pieces between separators
/// that are neither empty nor comments.
pub open spec fn segments(text: Seq<char>) -> Seq<Seq<char>> {
    kept_segments(split_on(text, "---"@))
}

/// The string held under key `k` of `es`, if there is one.
pub open spec fn text_field(es: Seq<(Seq<char>, Tree)>, k: Seq<char>) -> Option<Seq<char>> {
    if has_key(es, k) && value_at(es, k) is Text {
        Some(value_at(es, k)->Text_0)
    } else {
        None
    }
}

/// The mapping held under key `k` of `es`, if there is one.
pub open spec fn mapping_field(es: Seq<(Seq<char>, Tree)>, k: Seq<char>) -> Option<
    Seq<(Seq<char>, Tree)>,
> {
    if has_key(es, k) && value_at(es, k) is Mapping {
        Some(value_at(es, k)->Mapping_0)
    } else {
        None
    }
}

/// The record a parsed document carries: its `kind` and `metadata.name`, both
/// present as strings and not equal to the sentinels `Unknown` and `unnamed`,
/// and its `metadata.namespace` where that is a string.
pub open spec fn record_of(t: Tree) -> Option<(Seq<char>, Seq<char>, Option<Seq<char>>)> {
    match t {
        Tree::Mapping(es) => {
            let kind = match text_field(es, "kind"@) {
                Some(k) => k,
                None => "Unknown"@,
            };
            let meta = mapping_field(es, "metadata"@);
            let name = match meta {
                Some(m) => match text_field(m, "name"@) {
                    Some(n) => n,
                    None => "unnamed"@,
                },
                None => "unnamed"@,
            };
            let namespace = match meta {
                Some(m) => text_field(m, "namespace"@),
                None => None,
            };
            if kind == "Unknown"@ || name == "unnamed"@ {
                None
            } else {
                Some((kind, name, namespace))
            }
        },
        _ => None,
    }
}

/// The records of the documents `segs`, in order; a document that does not
/// parse, or carries no record, contributes none.
pub open spec fn records_of(segs: Seq<Seq<char>>) -> Seq<(Seq<char>, Seq<char>, Option<Seq<char>>)>
    decreases segs.len(),
{
    if segs.len() == 0 {
        Seq::empty()
    } else {
        let rest = records_of(segs.drop_last());
        match parsed_document(segs.last()) {
            Some(t) => match record_of(t) {
                Some(r) => rest.push(r),
                None => rest,
            },
            None => rest,
        }
    }
}

/// The records of a rendered text.
pub open spec fn extracted(text: Seq<char>) -> Seq<(Seq<char>, Seq<char>, Option<Seq<char>>)> {
    records_of(segments(text))
}

/// A parsed document that names no resource: not a mapping, or without a
/// string `kind`, or without a string `metadata.name`.
pub open spec fn lacks_identity(t: Tree) -> bool {
    match t {
        Tree::Mapping(es) => text_field(es, "kind"@) is None || match mapping_field(
            es,
            "metadata"@,
        ) {
            Some(m) => text_field(m, "name"@) is None,
            None => true,
        },
        _ => true,
    }
}

/// The records of documents laid end to end are the records of each part in
/// turn.
pub proof fn lemma_records_of_concat(a: Seq<Seq<char>>, b: Seq<Seq<char>>)
    ensures
        records_of(a + b) == records_of(a) + records_of(b),
    decreases b.len(),
{
    if b.len() == 0 {
        assert(a + b =~= a);
        assert(records_of(a) + records_of(b) =~= records_of(a));
    } else {
        lemma_records_of_concat(a, b.drop_last());
        assert((a + b).drop_last() =~= a + b.drop_last());
        assert((a + b).last() == b.last());
        let x = records_of(a);
        let y = records_of(b.drop_last());
        if let Some(t) = parsed_document(b.last()) {
            if let Some(r) = record_of(t) {
                assert((x + y).push(r) =~= x + y.push(r));
            }
        }
    }
}

/// A document that does not parse, or that names no resource, contributes no
/// record, and the records of the documents around it are unchanged.
pub proof fn lemma_document_without_identity(a: Seq<Seq<char>>, s: Seq<char>, b: Seq<Seq<char>>)
    requires
        match parsed_document(s) {
            Some(t) => lacks_identity(t),
            None => true,
        },
    ensures
        records_of(a + seq![s] + b) == records_of(a) + records_of(b),
{
    let with_s = a + seq![s];
    assert(with_s.drop_last() =~= a);
    assert(with_s.last() == s);
    if let Some(t) = parsed_document(s) {
        assert(record_of(t) is None);
    }
    assert(records_of(with_s) == records_of(a));
    lemma_records_of_concat(with_s, b);
}

/// The string held under `key` in `entries`, if there is one.
fn text_entry(entries: &Vec<(String, ValueTree)>, key: &str) -> (r: Option<String>)
    requires
        well_formed(Tree::Mapping(entries_view(entries@))),
    ensures
        match r {
            Some(s) => text_field(entries_view(entries@), key@) == Some(s@),
            None => text_field(entries_view(entries@), key@) is None,
        },
{
    let ghost es = entries_view(entries@);
    let k = key.to_owned();
    match find_entry(entries, &k) {
        Some(j) => {
            proof {
                lemma_unique_index(es, j as int);
            }
            match &entries[j].1 {
                ValueTree::Text(s) => Some(s.clone()),
                _ => None,
            }
        },
        None => {
            assert(!has_key(es, key@));
            None
        },
    }
}

/// Reads the record of one parsed document (see [`record_of`]).
pub fn extract_resource_info(yaml: &ValueTree) -> (r: Option<ExtractedResource>)
    requires
        well_formed(yaml@),
    ensures
        match r {
            Some(x) => record_of(yaml@) == Some(record_view(x)),
            None => record_of(yaml@) is None,
        },
{
    let entries = match yaml {
        ValueTree::Mapping(e) => e,
        _ => {
            return None;
        },
    };
    proof {
        lemma_mapping_view(*entries);
    }
    let ghost es = entries_view(entries@);
    let kind = match text_entry(entries, "kind") {
        Some(k) => k,
        None => "Unknown".to_owned(),
    };
    let key = "metadata".to_owned();
    let mut name = "unnamed".to_owned();
    let mut namespace: Option<String> = None;
    match find_entry(entries, &key) {
        Some(j) => {
            proof {
                lemma_unique_index(es, j as int);
            }
            match &entries[j].1 {
                ValueTree::Mapping(m) => {
                    proof {
                        lemma_mapping_view(*m);
                        assert(well_formed(es[j as int].1));
                    }
                    match text_entry(m, "name") {
                        Some(n) => {
                            name = n;
                        },
                        None => {},
                    }
                    namespace = text_entry(m, "namespace");
                },
                _ => {},
            }
        },
        None => {
            assert(!has_key(es, "metadata"@));
        },
    }
    let unknown = chars_of("Unknown");
    let unnamed = chars_of("unnamed");
    if same_chars(&chars_of(kind.as_str()), &unknown) || same_chars(
        &chars_of(name.as_str()),
        &unnamed,
    ) {
        return None;
    }
    Some(ExtractedResource { kind, name, namespace })
}

/// The records of the documents in a rendered text, in document order.
pub fn extract_resources_from_yaml(yaml_content: &str) -> (r: Vec<ExtractedResource>)
    ensures
        records_view(r@) == extracted(yaml_content@),
{
    let text = chars_of(yaml_content);
    let sep = chars_of("---");
    proof {
        reveal_strlit("---");
    }
    let pieces = split_on_exec(&text, &sep);
    let ghost ps = texts_view(pieces@);
    let mut out: Vec<ExtractedResource> = Vec::new();
    let mut i: usize = 0;
    while i < pieces.len()
        invariant
            i <= pieces@.len(),
            ps == texts_view(pieces@),
            ps == split_on(yaml_content@, "---"@),
            records_view(out@) == records_of(kept_segments(ps.subrange(0, i as int))),
        decreases pieces@.len() - i,
    {
        let ghost before = records_view(out@);
        let ghost segs = kept_segments(ps.subrange(0, i as int));
        assert(ps.subrange(0, i + 1).drop_last() =~= ps.subrange(0, i as int));
        let t = trim_chars(&pieces[i]);
        if t.len() > 0 && !occurs_at_exec(&t, &chars_of("#"), 0) {
            assert(kept_segments(ps.subrange(0, i + 1)) == segs.push(t@));
            assert(segs.push(t@).drop_last() =~= segs);
            let doc = string_of(&t);
            match parse_document(doc.as_str()) {
                Some(tree) => {
                    match extract_resource_info(&tree) {
                        Some(x) => {
                            out.push(x);
                            assert(records_view(out@) =~= before.push(record_view(x)));
                        },
                        None => {},
                    }
                },
                None => {},
            }
        }
        i += 1;
    }
    assert(ps.subrange(0, i as int) =~= ps);
    out
}

/// Extraction depends on the rendered text alone: two runs on one text yield
/// the same records in the same order.
pub proof fn lemma_extraction_repeatable(
    text: Seq<char>,
    first: Seq<ExtractedResource>,
    second: Seq<ExtractedResource>,
)
    requires
        records_view(first) == extracted(text),
        records_view(second) == extracted(text),
    ensures
        records_view(first) == records_view(second),
        first.len() == second.len(),
        forall|i: int|
            0 <= i < first.len() ==> first[i].kind@ == second[i].kind@ && first[i].name@
                == second[i].name@,
{
    assert(records_view(first).len() == first.len());
    assert(records_view(second).len() == second.len());
    assert forall|i: int| 0 <= i < first.len() implies first[i].kind@ == second[i].kind@
        && first[i].name@ == second[i].name@ by {
        assert(records_view(first)[i] == record_view(first[i]));
        assert(records_view(second)[i] == record_view(second[i]));
    }
}

/// The text of `p` after its last `/`.
pub open spec fn file_name(p: Seq<char>) -> Seq<char>
    decreases p.len(),
{
    if p.len() == 0 || p.last() == '/' {
        Seq::empty()
    } else {
        file_name(p.drop_last()).push(p.last())
    }
}

/// The text of `path` after its last `/`.
pub fn file_name_of(path: &str) -> (r: String)
    ensures
        r@ == file_name(path@),
{
    let p = chars_of(path);
    let mut start: usize = p.len();
    assert(p@.subrange(0, p@.len() as int) =~= p@);
    assert(file_name(p@) + p@.subrange(start as int, p@.len() as int) =~= file_name(p@));
    while start > 0 && p[start - 1] != '/'
        invariant
            start <= p@.len(),
            file_name(p@) == file_name(p@.subrange(0, start as int)) + p@.subrange(
                start as int,
                p@.len() as int,
            ),
        decreases start,
    {
        let ghost pre = p@.subrange(0, start as int);
        assert(pre.drop_last() =~= p@.subrange(0, start - 1));
        assert(p@.subrange(start - 1, p@.len() as int) =~= seq![pre.last()] + p@.subrange(
            start as int,
            p@.len() as int,
        ));
        assert(file_name(pre) == file_name(pre.drop_last()).push(pre.last()));
        assert(file_name(pre.drop_last()).push(pre.last()) + p@.subrange(
            start as int,
            p@.len() as int,
        ) =~= file_name(pre.drop_last()) + p@.subrange(start - 1, p@.len() as int));
        start -= 1;
    }
    assert(p@.subrange(0, p@.len() as int) =~= p@);
    assert(file_name(p@.subrange(0, start as int)) =~= Seq::<char>::empty());
    string_of(&slice_chars(&p, start, p.len()))
}

/// The records of `recs` as report entries: kind, then name, namespace and
/// the template `path`.
pub open spec fn tagged(recs: Seq<(Seq<char>, Seq<char>, Option<Seq<char>>)>, path: Seq<char>) -> Seq<
    (Seq<char>, (Seq<char>, Option<Seq<char>>, Seq<char>)),
>
    decreases recs.len(),
{
    if recs.len() == 0 {
        Seq::empty()
    } else {
        tagged(recs.drop_last(), path).push(
            (recs.last().0, (recs.last().1, recs.last().2, path)),
        )
    }
}

/// The report entries of the templates `ts` rendered against `values`, in
/// template order and document order.
pub open spec fn template_records(ts: Seq<Template>, values: Tree) -> Seq<
    (Seq<char>, (Seq<char>, Option<Seq<char>>, Seq<char>)),
>
    decreases ts.len(),
{
    if ts.len() == 0 {
        Seq::empty()
    } else {
        template_records(ts.drop_last(), values) + tagged(
            extracted(rendered(ts.last().content@, values)),
            ts.last().path@,
        )
    }
}

/// The record lists of a report that received the entries `recs`, in order.
pub open spec fn groups_fold(recs: Seq<(Seq<char>, (Seq<char>, Option<Seq<char>>, Seq<char>))>) -> Seq<
    (Seq<char>, Seq<(Seq<char>, Option<Seq<char>>, Seq<char>)>),
>
    decreases recs.len(),
{
    if recs.len() == 0 {
        Seq::empty()
    } else {
        groups_after(groups_fold(recs.drop_last()), recs.last().0, recs.last().1)
    }
}

/// `rep` is the report of the templates `ts` rendered against the values set
/// with tree `data` read from `source`.
pub open spec fn is_report_for(rep: ResourceReport, ts: Seq<Template>, data: Tree, source: Seq<char>) -> bool {
    let recs = template_records(ts, data);
    &&& rep.wf()
    &&& rep.values_file@ == file_name(source)
    &&& rep.total_resources as nat == recs.len()
    &&& counts_view(rep.resource_counts@) == counts_of_records(recs)
    &&& forall|k: Seq<char>| #[trigger] rep.count_of(k) == kind_count(recs, k)
    &&& groups_view(rep.resources@) == groups_fold(recs)
}

proof fn lemma_tagged_len(recs: Seq<(Seq<char>, Seq<char>, Option<Seq<char>>)>, path: Seq<char>)
    ensures
        tagged(recs, path).len() == recs.len(),
    decreases recs.len(),
{
    if recs.len() > 0 {
        lemma_tagged_len(recs.drop_last(), path);
    }
}

proof fn lemma_template_records_prefix(ts: Seq<Template>, values: Tree, i: int)
    requires
        0 <= i <= ts.len(),
    ensures
        template_records(ts.subrange(0, i), values).len() <= template_records(ts, values).len(),
    decreases ts.len(),
{
    if i == ts.len() {
        assert(ts.subrange(0, i) =~= ts);
    } else {
        let p = ts.drop_last();
        assert(p.subrange(0, i) =~= ts.subrange(0, i));
        lemma_template_records_prefix(p, values, i);
    }
}

/// Renders every template of `templates` against `values` and folds the
/// records found into one report, named after the values file.
pub fn analyze_with_values(templates: &Vec<Template>, values: &Values) -> (r: Result<
    ResourceReport,
    AnalysisError,
>)
    ensures
        match r {
            Ok(rep) => is_report_for(rep, templates@, values.data@, values.source@),
            Err(e) => e == AnalysisError::TooManyResources && template_records(
                templates@,
                values.data@,
            ).len() > u32::MAX,
        },
{
    let ghost ts = templates@;
    let ghost data = values.data@;
    let mut report = ResourceReport::new(file_name_of(values.source.as_str()));
    let mut i: usize = 0;
    assert(counts_view(report.resource_counts@) =~= Seq::empty());
    assert(groups_view(report.resources@) =~= Seq::empty());
    while i < templates.len()
        invariant
            i <= ts.len(),
            ts == templates@,
            data == values.data@,
            report.wf(),
            report.values_file@ == file_name(values.source@),
            report.total_resources as nat == template_records(ts.subrange(0, i as int), data).len(),
            counts_view(report.resource_counts@) == counts_of_records(
                template_records(ts.subrange(0, i as int), data),
            ),
            groups_view(report.resources@) == groups_fold(
                template_records(ts.subrange(0, i as int), data),
            ),
        decreases ts.len() - i,
    {
        let template = &templates[i];
        let rendered_template = template.render(values);
        let resources = extract_resources_from_yaml(rendered_template.rendered_content.as_str());
        let ghost recs = records_view(resources@);
        let ghost path = template.path@;
        let ghost done = template_records(ts.subrange(0, i as int), data);
        assert(ts.subrange(0, i + 1).drop_last() =~= ts.subrange(0, i as int));
        assert(template_records(ts.subrange(0, i + 1), data) == done + tagged(recs, path));
        let mut j: usize = 0;
        assert(done + tagged(recs.subrange(0, 0), path) =~= done);
        while j < resources.len()
            invariant
                j <= resources@.len(),
                i < ts.len(),
                ts == templates@,
                recs == records_view(resources@),
                path == templates@[i as int].path@,
                path == template.path@,
                data == values.data@,
                template_records(ts.subrange(0, i + 1), data) == done + tagged(recs, path),
                report.wf(),
                report.values_file@ == file_name(values.source@),
                report.total_resources as nat == (done + tagged(
                    recs.subrange(0, j as int),
                    path,
                )).len(),
                counts_view(report.resource_counts@) == counts_of_records(
                    done + tagged(recs.subrange(0, j as int), path),
                ),
                groups_view(report.resources@) == groups_fold(
                    done + tagged(recs.subrange(0, j as int), path),
                ),
            decreases resources@.len() - j,
        {
            let ghost before = done + tagged(recs.subrange(0, j as int), path);
            let ghost after = done + tagged(recs.subrange(0, j + 1), path);
            assert(recs.subrange(0, j + 1).drop_last() =~= recs.subrange(0, j as int));
            let ghost x = (recs[j as int].0, (recs[j as int].1, recs[j as int].2, path));
            assert(after =~= before.push(x));
            assert(after.drop_last() =~= before);
            if report.total_resources == u32::MAX {
                proof {
                    lemma_tagged_len(recs.subrange(0, j + 1), path);
                    lemma_tagged_len(recs, path);
                    lemma_template_records_prefix(ts, data, i + 1);
                    assert(after.len() == before.len() + 1);
                    assert(after.len() <= (done + tagged(recs, path)).len());
                    assert(template_records(ts, data).len() > u32::MAX);
                }
                return Err(AnalysisError::TooManyResources);
            }
            let res = &resources[j];
            assert(recs[j as int] == record_view(*res));
            let namespace = match &res.namespace {
                Some(n) => Some(n.clone()),
                None => None,
            };
            let info = ResourceInfo::new(res.name.clone(), namespace, template.path.clone());
            assert(info_view(info) == x.1);
            report.add_resource(res.kind.clone(), info);
            j += 1;
        }
        assert(recs.subrange(0, j as int) =~= recs);
        i += 1;
    }
    assert(ts.subrange(0, i as int) =~= ts);
    assert forall|k: Seq<char>| #[trigger] report.count_of(k) == kind_count(
        template_records(ts, data),
        k,
    ) by {
        lemma_counts_of_records(template_records(ts, data), k);
    }
    Ok(report)
}

/// A template that renders nothing (see [`Template::is_empty_template`]).
pub open spec fn is_empty_template(t: Template) -> bool {
    trim(t.content@).len() == 0 || starts_with(trim(t.content@), "{{- if false"@)
}

/// The templates of `ts` that are not empty, in order.
pub open spec fn retained(ts: Seq<Template>) -> Seq<Template>
    decreases ts.len(),
{
    if ts.len() == 0 {
        Seq::empty()
    } else if is_empty_template(ts.last()) {
        retained(ts.drop_last())
    } else {
        retained(ts.drop_last()).push(ts.last())
    }
}

/// The chart is a library chart.
pub open spec fn is_library_chart(m: ChartMetadata) -> bool {
    m.chart_type is Some && m.chart_type->0@ == "library"@
}

/// The number of dependencies a descriptor lists.
pub open spec fn dependency_count_of(m: ChartMetadata) -> nat {
    match m.dependencies {
        Some(d) => d@.len(),
        None => 0,
    }
}

/// No two values sets share a file name.
pub open spec fn names_distinct(vs: Seq<Values>) -> bool {
    forall|i: int, j: int|
        0 <= i < j < vs.len() ==> file_name(vs[i].source@) != file_name(vs[j].source@)
}

/// Analyses a chart from its descriptor, its templates and its values sets.
/// A descriptor that fails validation is an error. A library chart gets no
/// report. Otherwise the templates that are not empty are rendered against
/// each values set in turn, giving one report per values set under its file
/// name; with no values set, one report named `default` is made against an
/// empty tree.
pub fn analyze_chart(
    chart_dir: &str,
    metadata: ChartMetadata,
    templates: &Vec<Template>,
    values_sets: &Vec<Values>,
) -> (r: Result<ChartAnalysis, AnalysisError>)
    requires
        metadata.dependencies is Some ==> metadata.dependencies->0@.len() <= u32::MAX,
    ensures
        validation(metadata) is Err ==> r == Err::<ChartAnalysis, AnalysisError>(
            AnalysisError::MetadataValidation(validation(metadata)->Err_0),
        ),
        validation(metadata) is Ok && is_library_chart(metadata) ==> r is Ok
            && r->Ok_0.values_analyses@.len() == 0,
        r is Ok ==> r->Ok_0.chart_name == metadata.name && r->Ok_0.chart_version
            == metadata.version && r->Ok_0.chart_path@ == chart_dir@,
        r is Ok ==> r->Ok_0.metadata.description == metadata.description
            && r->Ok_0.metadata.api_version == metadata.api_version
            && r->Ok_0.metadata.chart_type == metadata.chart_type && r->Ok_0.metadata.keywords
            == metadata.keywords && r->Ok_0.metadata.dependency_count as nat
            == dependency_count_of(metadata),
        validation(metadata) is Ok && !is_library_chart(metadata) && values_sets@.len() == 0 ==> (
        match r {
            Ok(a) => a.values_analyses@.len() == 1 && a.values_analyses@[0].0@ == "default"@
                && is_report_for(
                a.values_analyses@[0].1,
                retained(templates@),
                Tree::Mapping(Seq::empty()),
                "empty"@,
            ),
            Err(e) => e == AnalysisError::TooManyResources && template_records(
                retained(templates@),
                Tree::Mapping(Seq::empty()),
            ).len() > u32::MAX,
        }),
        validation(metadata) is Ok && !is_library_chart(metadata) && values_sets@.len() > 0 ==> (
        match r {
            Ok(a) => (forall|i: int|
                0 <= i < values_sets@.len() ==> has_kind(
                    reports_view(a.values_analyses@),
                    file_name((#[trigger] values_sets@[i]).source@),
                )) && (forall|i: int|
                0 <= i < values_sets@.len() ==> template_records(
                    retained(templates@),
                    (#[trigger] values_sets@[i]).data@,
                ).len() <= u32::MAX) && (forall|m: int|
                0 <= m < a.values_analyses@.len() ==> exists|i: int|
                    0 <= i < values_sets@.len() && #[trigger] a.values_analyses@[m].0@ == file_name(
                        values_sets@[i].source@,
                    ) && is_report_for(
                        a.values_analyses@[m].1,
                        retained(templates@),
                        values_sets@[i].data@,
                        values_sets@[i].source@,
                    )),
            Err(e) => e == AnalysisError::TooManyResources && exists|i: int|
                0 <= i < values_sets@.len() && template_records(
                    retained(templates@),
                    (#[trigger] values_sets@[i]).data@,
                ).len() > u32::MAX,
        }),
        validation(metadata) is Ok && !is_library_chart(metadata) && values_sets@.len() > 0
            && names_distinct(values_sets@) ==> (match r {
            Ok(a) => a.values_analyses@.len() == values_sets@.len() && forall|i: int|
                0 <= i < values_sets@.len() ==> a.values_analyses@[i].0@ == file_name(
                    values_sets@[i].source@,
                ) && is_report_for(
                    a.values_analyses@[i].1,
                    retained(templates@),
                    values_sets@[i].data@,
                    values_sets@[i].source@,
                ),
            Err(_) => true,
        }),
{
    match metadata.validate() {
        Err(e) => {
            return Err(AnalysisError::MetadataValidation(e));
        },
        Ok(()) => {},
    }
    let library = metadata.is_library();
    let name = metadata.name.clone();
    let version = metadata.version.clone();
    let mut analysis = ChartAnalysis::new(name, version, chart_dir.to_owned(), metadata);
    let ghost meta = analysis.metadata;
    if library {
        return Ok(analysis);
    }
    let mut kept: Vec<Template> = Vec::new();
    let mut i: usize = 0;
    while i < templates.len()
        invariant
            i <= templates@.len(),
            kept@ == retained(templates@.subrange(0, i as int)),
        decreases templates@.len() - i,
    {
        assert(templates@.subrange(0, i + 1).drop_last() =~= templates@.subrange(0, i as int));
        if !templates[i].is_empty_template() {
            kept.push(
                Template { path: templates[i].path.clone(), content: templates[i].content.clone() },
            );
        }
        i += 1;
    }
    assert(templates@.subrange(0, i as int) =~= templates@);
    let ghost vs = values_sets@;
    let mut k: usize = 0;
    assert(reports_view(analysis.values_analyses@) =~= Seq::empty());
    while k < values_sets.len()
        invariant
            k <= vs.len(),
            vs == values_sets@,
            kept@ == retained(templates@),
            validation(metadata) is Ok,
            !is_library_chart(metadata),
            kinds_unique(reports_view(analysis.values_analyses@)),
            k > 0 ==> analysis.values_analyses@.len() > 0,
            analysis.chart_name == metadata.name,
            analysis.chart_version == metadata.version,
            analysis.chart_path@ == chart_dir@,
            analysis.metadata == meta,
            meta.description == metadata.description,
            meta.api_version == metadata.api_version,
            meta.chart_type == metadata.chart_type,
            meta.keywords == metadata.keywords,
            meta.dependency_count as nat == dependency_count_of(metadata),
            forall|i: int|
                0 <= i < k ==> has_kind(
                    reports_view(analysis.values_analyses@),
                    file_name((#[trigger] vs[i]).source@),
                ),
            forall|i: int|
                0 <= i < k ==> template_records(retained(templates@), (#[trigger] vs[i]).data@).len()
                    <= u32::MAX,
            forall|m: int|
                0 <= m < analysis.values_analyses@.len() ==> exists|i: int|
                    0 <= i < k && #[trigger] analysis.values_analyses@[m].0@ == file_name(
                        vs[i].source@,
                    ) && is_report_for(
                        analysis.values_analyses@[m].1,
                        retained(templates@),
                        vs[i].data@,
                        vs[i].source@,
                    ),
            names_distinct(vs) ==> analysis.values_analyses@.len() == k && forall|m: int|
                0 <= m < k ==> analysis.values_analyses@[m].0@ == file_name(vs[m].source@)
                    && is_report_for(
                    analysis.values_analyses@[m].1,
                    retained(templates@),
                    vs[m].data@,
                    vs[m].source@,
                ),
        decreases vs.len() - k,
    {
        let report = match analyze_with_values(&kept, &values_sets[k]) {
            Ok(rep) => rep,
            Err(e) => {
                assert(template_records(retained(templates@), vs[k as int].data@).len()
                    > u32::MAX);
                return Err(e);
            },
        };
        let name = file_name_of(values_sets[k].source.as_str());
        let ghost rs = reports_view(analysis.values_analyses@);
        proof {
            if names_distinct(vs) {
                assert(!has_kind(rs, name@)) by {
                    if has_kind(rs, name@) {
                        let m = kind_pos(rs, name@);
                        assert(file_name(vs[m].source@) != file_name(vs[k as int].source@));
                    }
                }
            }
        }
        let ghost old_entries = analysis.values_analyses@;
        analysis.add_resource_report(name, report);
        proof {
            if has_kind(rs, name@) {
                assert(rs.len() > 0);
            }
            let n = analysis.values_analyses@;
            assert(report.total_resources as nat == template_records(
                retained(templates@),
                vs[k as int].data@,
            ).len());
            assert forall|m: int| 0 <= m < n.len() implies exists|i: int|
                0 <= i < k + 1 && #[trigger] n[m].0@ == file_name(vs[i].source@) && is_report_for(
                    n[m].1,
                    retained(templates@),
                    vs[i].data@,
                    vs[i].source@,
                ) by {
                assert(reports_view(n)[m] == (n[m].0@, n[m].1));
                if m < old_entries.len() && reports_view(n)[m] == rs[m] {
                    assert(rs[m] == (old_entries[m].0@, old_entries[m].1));
                    let i = choose|i: int|
                        0 <= i < k && #[trigger] old_entries[m].0@ == file_name(vs[i].source@)
                            && is_report_for(
                            old_entries[m].1,
                            retained(templates@),
                            vs[i].data@,
                            vs[i].source@,
                        );
                    assert(n[m].0@ == file_name(vs[i].source@));
                } else {
                    assert(n[m].0@ == file_name(vs[k as int].source@));
                    assert(n[m].1 == report);
                }
            }
            assert(reports_view(analysis.values_analyses@).len() > 0);
            let nv = reports_view(n);
            assert(nv == crate::report::reports_after(rs, name@, report));
            assert forall|i: int| 0 <= i < k + 1 implies has_kind(
                nv,
                file_name((#[trigger] vs[i]).source@),
            ) by {
                let x = file_name(vs[i].source@);
                if i == k {
                    if has_kind(rs, name@) {
                        let p = kind_pos(rs, name@);
                        assert(nv[p].0 == name@);
                    } else {
                        assert(nv[rs.len() as int].0 == name@);
                    }
                } else {
                    assert(has_kind(rs, x));
                    let j = kind_pos(rs, x);
                    if has_kind(rs, name@) {
                        let p = kind_pos(rs, name@);
                        if j == p {
                            assert(nv[p].0 == name@);
                        } else {
                            assert(nv[j] == rs[j]);
                        }
                    } else {
                        assert(nv[j] == rs[j]);
                    }
                }
            }
            if names_distinct(vs) {
                let n = analysis.values_analyses@;
                assert(reports_view(n) == rs.push((name@, report)));
                assert forall|m: int| 0 <= m < k + 1 implies n[m].0@ == file_name(vs[m].source@)
                    && is_report_for(n[m].1, retained(templates@), vs[m].data@, vs[m].source@) by {
                    assert(reports_view(n)[m] == (n[m].0@, n[m].1));
                    if m < k {
                        assert(rs[m] == reports_view(n)[m]);
                    }
                }
            }
        }
        k += 1;
    }
    if analysis.values_file_count() == 0 {
        let empty = Values::empty();
        let report = match analyze_with_values(&kept, &empty) {
            Ok(rep) => rep,
            Err(e) => {
                return Err(e);
            },
        };
        proof {
            assert(reports_view(analysis.values_analyses@) =~= Seq::empty());
            reveal_strlit("empty");
        }
        let key = "default".to_owned();
        analysis.add_resource_report(key, report);
        proof {
            let n = analysis.values_analyses@;
            assert(!has_kind(Seq::<(Seq<char>, ResourceReport)>::empty(), key@));
            assert(reports_view(n) == seq![(key@, report)]);
            assert(n.len() == 1);
            assert(reports_view(n)[0] == (n[0].0@, n[0].1));
        }
    }
    Ok(analysis)
}

/// The chart names of a list of analyses.
pub open spec fn chart_names(v: Seq<ChartAnalysis>) -> Seq<Seq<char>> {
    Seq::new(v.len(), |i: int| v[i].chart_name@)
}

/// `items` ordered by chart name, a permutation of the input; the order that
/// a batch of analyses is reported in.
pub fn sort_by_chart_name(items: Vec<ChartAnalysis>) -> (r: Vec<ChartAnalysis>)
    ensures
        r@.to_multiset() == items@.to_multiset(),
        texts_sorted(chart_names(r@)),
{
    broadcast use vstd::seq_lib::group_to_multiset_ensures;

    let ghost orig = items@;
    let mut rest = items;
    let mut out: Vec<ChartAnalysis> = Vec::new();
    while rest.len() > 0
        invariant
            out@.to_multiset().add(rest@.to_multiset()) == orig.to_multiset(),
            texts_sorted(chart_names(out@)),
        decreases rest@.len(),
    {
        let ghost before = rest@;
        let x = rest.pop().unwrap();
        assert(before =~= rest@.push(x));
        let xc = chars_of(x.chart_name.as_str());
        let mut p: usize = 0;
        while p < out.len() && text_le_exec(&chars_of(out[p].chart_name.as_str()), &xc)
            invariant
                p <= out@.len(),
                xc@ == x.chart_name@,
                forall|k: int| 0 <= k < p ==> text_le(out@[k].chart_name@, x.chart_name@),
            decreases out@.len() - p,
        {
            p += 1;
        }
        let ghost old_out = out@;
        out.insert(p, x);
        proof {
            vstd::seq_lib::to_multiset_insert(old_out, p as int, x);
            vstd::seq_lib::to_multiset_build(rest@, x);
            assert(out@.to_multiset() =~= old_out.to_multiset().insert(x));
            assert(before.to_multiset() =~= rest@.to_multiset().insert(x));
            assert(out@.to_multiset().add(rest@.to_multiset()) =~= old_out.to_multiset().add(
                before.to_multiset(),
            ));
            let n = chart_names(out@);
            let o = chart_names(old_out);
            assert(out@ == old_out.insert(p as int, x));
            if p < old_out.len() {
                lemma_text_le_total(o[p as int], x.chart_name@);
            }
            assert forall|i: int, j: int| 0 <= i < j < n.len() implies text_le(n[i], n[j]) by {
                if j < p {
                    assert(n[i] == o[i] && n[j] == o[j]);
                } else if j == p {
                    assert(n[i] == o[i] && n[j] == x.chart_name@);
                } else if i > p {
                    assert(n[i] == o[i - 1] && n[j] == o[j - 1]);
                } else if i == p {
                    assert(n[i] == x.chart_name@ && n[j] == o[j - 1]);
                    if j - 1 > p {
                        lemma_text_le_trans(x.chart_name@, o[p as int], o[j - 1]);
                    }
                } else {
                    assert(n[i] == o[i] && n[j] == o[j - 1]);
                    assert(text_le(o[i], x.chart_name@));
                    if j - 1 > p {
                        lemma_text_le_trans(x.chart_name@, o[p as int], o[j - 1]);
                    }
                    lemma_text_le_trans(o[i], x.chart_name@, o[j - 1]);
                }
            }
        }
    }
    assert(rest@ =~= Seq::<ChartAnalysis>::empty());
    out
}

} // verus!
