//! Per-values-set resource reports and per-chart analysis results.
use vstd::prelude::*;

use crate::chart;
use crate::text::{
    chars_of, concat_chars, decimal, decimal_chars, same_chars, sort_texts, string_of,
    strings_view, texts_sorted,
};

verus! {

/// A record of one resource: its name, its namespace if any, and the template
/// that produced it.
#[derive(Debug, Clone, PartialEq)]
pub struct ResourceInfo {
    pub name: String,
    pub namespace: Option<String>,
    pub source_template: String,
}

/// The resources found when rendering a chart with one values set: a count
/// and a list of records per kind, in order of first appearance, and a total.
#[derive(Debug, Clone, PartialEq)]
pub struct ResourceReport {
    pub values_file: String,
    pub resource_counts: Vec<(String, u32)>,
    pub resources: Vec<(String, Vec<ResourceInfo>)>,
    pub total_resources: u32,
}

/// Chart metadata as reports carry it.
#[derive(Debug, Clone, PartialEq)]
pub struct ChartMetadata {
    pub description: Option<String>,
    pub api_version: String,
    pub chart_type: Option<String>,
    pub keywords: Option<Vec<String>>,
    pub dependency_count: u32,
}

/// The analysis of one chart: its identity and a report per values set, in
/// the order they were added.
#[derive(Debug, Clone, PartialEq)]
pub struct ChartAnalysis {
    pub chart_name: String,
    pub chart_version: String,
    pub chart_path: String,
    pub values_analyses: Vec<(String, ResourceReport)>,
    pub metadata: ChartMetadata,
}

/// The output formats of a report.
#[derive(Debug, Clone, Copy, PartialEq, Eq, Structural)]
pub enum ReportFormat {
    Json,
    Yaml,
}

/// `es` holds an entry with key `k`.
pub open spec fn has_kind<V>(es: Seq<(Seq<char>, V)>, k: Seq<char>) -> bool {
    exists|j: int| 0 <= j < es.len() && es[j].0 == k
}

/// The position of the entry with key `k` in `es`.
pub open spec fn kind_pos<V>(es: Seq<(Seq<char>, V)>, k: Seq<char>) -> int {
    choose|j: int| 0 <= j < es.len() && es[j].0 == k
}

/// No two entries of `es` share a key.
pub open spec fn kinds_unique<V>(es: Seq<(Seq<char>, V)>) -> bool {
    forall|i: int, j: int| 0 <= i < j < es.len() ==> es[i].0 != es[j].0
}

/// In entries with unique kinds, the entry at `j` is the one found under its kind.
pub proof fn lemma_kind_pos<V>(es: Seq<(Seq<char>, V)>, j: int)
    requires
        kinds_unique(es),
        0 <= j < es.len(),
    ensures
        has_kind(es, es[j].0),
        kind_pos(es, es[j].0) == j,
{
    assert(has_kind(es, es[j].0));
    let i = kind_pos(es, es[j].0);
    if i < j {
        assert(es[i].0 != es[j].0);
    } else if j < i {
        assert(es[j].0 != es[i].0);
    }
}

/// The counts of a report, keyed by the text of each kind.
pub open spec fn counts_view(v: Seq<(String, u32)>) -> Seq<(Seq<char>, nat)> {
    Seq::new(v.len(), |i: int| (v[i].0@, v[i].1 as nat))
}

/// The text of an optional string.
pub open spec fn opt_view(o: Option<String>) -> Option<Seq<char>> {
    match o {
        Some(s) => Some(s@),
        None => None,
    }
}

/// A resource record as text: name, namespace, source template.
pub open spec fn info_view(r: ResourceInfo) -> (Seq<char>, Option<Seq<char>>, Seq<char>) {
    (r.name@, opt_view(r.namespace), r.source_template@)
}

/// The texts of a list of records.
pub open spec fn infos_view(v: Seq<ResourceInfo>) -> Seq<(Seq<char>, Option<Seq<char>>, Seq<char>)> {
    Seq::new(v.len(), |i: int| info_view(v[i]))
}

/// The record lists of a report, keyed by the text of each kind.
pub open spec fn groups_view(v: Seq<(String, Vec<ResourceInfo>)>) -> Seq<
    (Seq<char>, Seq<(Seq<char>, Option<Seq<char>>, Seq<char>)>),
> {
    Seq::new(v.len(), |i: int| (v[i].0@, infos_view(v[i].1@)))
}

/// The sum of the counts in `cs`.
pub open spec fn sum_counts(cs: Seq<(Seq<char>, nat)>) -> nat
    decreases cs.len(),
{
    if cs.len() == 0 {
        0
    } else {
        sum_counts(cs.drop_last()) + cs.last().1
    }
}

/// The count of kind `k` in `cs`; zero where `k` is absent.
pub open spec fn count_in(cs: Seq<(Seq<char>, nat)>, k: Seq<char>) -> nat {
    if has_kind(cs, k) {
        cs[kind_pos(cs, k)].1
    } else {
        0
    }
}

/// The counts after one more resource of kind `k`.
pub open spec fn counts_after(cs: Seq<(Seq<char>, nat)>, k: Seq<char>) -> Seq<(Seq<char>, nat)> {
    add_count(cs, k, 1)
}

/// `acc` with `c` more of kind `k`.
pub open spec fn add_count(acc: Seq<(Seq<char>, nat)>, k: Seq<char>, c: nat) -> Seq<
    (Seq<char>, nat),
> {
    if has_kind(acc, k) {
        acc.update(kind_pos(acc, k), (k, acc[kind_pos(acc, k)].1 + c))
    } else {
        acc.push((k, c))
    }
}

/// The number of entries of `recs` of kind `k`.
pub open spec fn kind_count<V>(recs: Seq<(Seq<char>, V)>, k: Seq<char>) -> nat
    decreases recs.len(),
{
    if recs.len() == 0 {
        0
    } else {
        kind_count(recs.drop_last(), k) + if recs.last().0 == k {
            1nat
        } else {
            0nat
        }
    }
}

/// Adding `c` of kind `k2` to counts with unique kinds keeps the kinds unique
/// and raises the count of `k2` alone, by `c`.
pub proof fn lemma_add_count(acc: Seq<(Seq<char>, nat)>, k2: Seq<char>, c: nat, k: Seq<char>)
    requires
        kinds_unique(acc),
    ensures
        kinds_unique(add_count(acc, k2, c)),
        count_in(add_count(acc, k2, c), k) == count_in(acc, k) + if k == k2 {
            c
        } else {
            0
        },
{
    let n = add_count(acc, k2, c);
    if has_kind(acc, k2) {
        let p = kind_pos(acc, k2);
        assert forall|a: int, b: int| 0 <= a < b < n.len() implies n[a].0 != n[b].0 by {
            assert(acc[a].0 != acc[b].0);
        }
        lemma_kind_pos(n, p);
        if k != k2 && has_kind(acc, k) {
            let q = kind_pos(acc, k);
            lemma_kind_pos(acc, q);
            lemma_kind_pos(n, q);
        }
        if k != k2 && has_kind(n, k) {
            let q = kind_pos(n, k);
            assert(acc[q].0 == k);
        }
    } else {
        assert forall|a: int, b: int| 0 <= a < b < n.len() implies n[a].0 != n[b].0 by {
            if b < acc.len() {
                assert(acc[a].0 != acc[b].0);
            } else {
                assert(acc[a].0 != k2);
            }
        }
        lemma_kind_pos(n, acc.len() as int);
        if k != k2 && has_kind(acc, k) {
            let q = kind_pos(acc, k);
            lemma_kind_pos(acc, q);
            lemma_kind_pos(n, q);
        }
        if k != k2 && has_kind(n, k) {
            let q = kind_pos(n, k);
            assert(q < acc.len());
            assert(acc[q].0 == k);
        }
    }
}

/// Adding counts with unique kinds to counts with unique kinds adds the
/// counts kind by kind.
pub proof fn lemma_add_counts(acc: Seq<(Seq<char>, nat)>, cs: Seq<(Seq<char>, nat)>, k: Seq<char>)
    requires
        kinds_unique(acc),
        kinds_unique(cs),
    ensures
        kinds_unique(add_counts(acc, cs)),
        count_in(add_counts(acc, cs), k) == count_in(acc, k) + count_in(cs, k),
    decreases cs.len(),
{
    if cs.len() > 0 {
        let p = cs.drop_last();
        let last = cs.last();
        assert(kinds_unique(p));
        lemma_add_counts(acc, p, k);
        lemma_add_counts(acc, p, last.0);
        lemma_add_count(add_counts(acc, p), last.0, last.1, k);
        lemma_kind_pos(cs, cs.len() - 1);
        if has_kind(p, k) {
            let q = kind_pos(p, k);
            lemma_kind_pos(p, q);
            assert(cs[q] == p[q]);
            lemma_kind_pos(cs, q);
        }
        if k != last.0 && has_kind(cs, k) {
            let q = kind_pos(cs, k);
            assert(q < p.len());
            assert(p[q].0 == k);
        }
        if k == last.0 && has_kind(p, k) {
            let q = kind_pos(p, k);
            assert(cs[q].0 == cs[cs.len() - 1].0);
        }
    }
}

/// The counts of a report that received the kinds of `recs` count each kind
/// as often as it occurs in `recs`.
pub proof fn lemma_counts_of_records<V>(recs: Seq<(Seq<char>, V)>, k: Seq<char>)
    ensures
        kinds_unique(counts_of_records(recs)),
        count_in(counts_of_records(recs), k) == kind_count(recs, k),
    decreases recs.len(),
{
    if recs.len() > 0 {
        lemma_counts_of_records(recs.drop_last(), k);
        lemma_counts_of_records(recs.drop_last(), recs.last().0);
        lemma_add_count(counts_of_records(recs.drop_last()), recs.last().0, 1, k);
    }
}

/// The counts after the kinds of `recs`, in order, from no counts.
pub open spec fn counts_of_records<V>(recs: Seq<(Seq<char>, V)>) -> Seq<(Seq<char>, nat)>
    decreases recs.len(),
{
    if recs.len() == 0 {
        Seq::empty()
    } else {
        counts_after(counts_of_records(recs.drop_last()), recs.last().0)
    }
}

/// The sum over the reports of `rs` of their count of kind `k`.
pub open spec fn summed_count(rs: Seq<(Seq<char>, ResourceReport)>, k: Seq<char>) -> nat
    decreases rs.len(),
{
    if rs.len() == 0 {
        0
    } else {
        summed_count(rs.drop_last(), k) + rs.last().1.count_of(k)
    }
}

/// A prefix of the reports sums to no more than all of them, and one more
/// report adds its own count.
pub proof fn lemma_summed_prefix(rs: Seq<(Seq<char>, ResourceReport)>, i: int, k: Seq<char>)
    requires
        0 <= i < rs.len(),
    ensures
        summed_count(rs.subrange(0, i + 1), k) == summed_count(rs.subrange(0, i), k)
            + rs[i].1.count_of(k),
        summed_count(rs.subrange(0, i + 1), k) <= summed_count(rs, k),
    decreases rs.len(),
{
    assert(rs.subrange(0, i + 1).drop_last() =~= rs.subrange(0, i));
    if i == rs.len() - 1 {
        assert(rs.subrange(0, i + 1) =~= rs);
    } else {
        assert(rs.drop_last().subrange(0, i + 1) =~= rs.subrange(0, i + 1));
        assert(rs.drop_last().subrange(0, i) =~= rs.subrange(0, i));
        lemma_summed_prefix(rs.drop_last(), i, k);
    }
}

/// The summary counts each kind as the sum of its counts over the reports.
pub proof fn lemma_summary_counts(rs: Seq<(Seq<char>, ResourceReport)>, k: Seq<char>)
    requires
        forall|i: int| 0 <= i < rs.len() ==> (#[trigger] rs[i]).1.wf(),
    ensures
        kinds_unique(summary_of(rs)),
        count_in(summary_of(rs), k) == summed_count(rs, k),
    decreases rs.len(),
{
    if rs.len() > 0 {
        let p = rs.drop_last();
        assert forall|i: int| 0 <= i < p.len() implies (#[trigger] p[i]).1.wf() by {
            assert(p[i] == rs[i]);
        }
        lemma_summary_counts(p, k);
        assert(rs[rs.len() - 1].1.wf());
        lemma_add_counts(summary_of(p), counts_view(rs.last().1.resource_counts@), k);
    }
}


/// The record lists after one more record `info` of kind `k`.
pub open spec fn groups_after(
    gs: Seq<(Seq<char>, Seq<(Seq<char>, Option<Seq<char>>, Seq<char>)>)>,
    k: Seq<char>,
    info: (Seq<char>, Option<Seq<char>>, Seq<char>),
) -> Seq<(Seq<char>, Seq<(Seq<char>, Option<Seq<char>>, Seq<char>)>)> {
    if has_kind(gs, k) {
        gs.update(kind_pos(gs, k), (k, gs[kind_pos(gs, k)].1.push(info)))
    } else {
        gs.push((k, seq![info]))
    }
}

proof fn lemma_sum_update(cs: Seq<(Seq<char>, nat)>, i: int, e: (Seq<char>, nat))
    requires
        0 <= i < cs.len(),
    ensures
        sum_counts(cs.update(i, e)) + cs[i].1 == sum_counts(cs) + e.1,
    decreases cs.len(),
{
    let u = cs.update(i, e);
    if i == cs.len() - 1 {
        assert(u.drop_last() =~= cs.drop_last());
    } else {
        assert(u.drop_last() =~= cs.drop_last().update(i, e));
        lemma_sum_update(cs.drop_last(), i, e);
    }
}

proof fn lemma_sum_prefix(cs: Seq<(Seq<char>, nat)>, j: int)
    requires
        0 <= j <= cs.len(),
    ensures
        sum_counts(cs.subrange(0, j)) <= sum_counts(cs),
        j < cs.len() ==> sum_counts(cs.subrange(0, j + 1)) == sum_counts(cs.subrange(0, j))
            + cs[j].1,
    decreases cs.len(),
{
    if j < cs.len() {
        assert(cs.subrange(0, j + 1).drop_last() =~= cs.subrange(0, j));
    }
    if j == cs.len() {
        assert(cs.subrange(0, j) =~= cs);
    } else {
        assert(cs.drop_last().subrange(0, j) =~= cs.subrange(0, j));
        lemma_sum_prefix(cs.drop_last(), j);
    }
}

proof fn lemma_count_le_sum(cs: Seq<(Seq<char>, nat)>, i: int)
    requires
        0 <= i < cs.len(),
    ensures
        cs[i].1 <= sum_counts(cs),
    decreases cs.len(),
{
    if i < cs.len() - 1 {
        lemma_count_le_sum(cs.drop_last(), i);
    }
}

impl ResourceInfo {
    /// A record of the resource `name` in `namespace`, produced by `source_template`.
    pub fn new(name: String, namespace: Option<String>, source_template: String) -> (r: Self)
        ensures
            r == (ResourceInfo { name, namespace, source_template }),
    {
        ResourceInfo { name, namespace, source_template }
    }

    /// `namespace/name`, or the name alone where there is no namespace.
    pub fn full_name(&self) -> (r: String)
        ensures
            r@ == match self.namespace {
                Some(ns) => ns@ + "/"@ + self.name@,
                None => self.name@,
            },
    {
        match &self.namespace {
            Some(ns) => string_of(
                &concat_chars(
                    &concat_chars(&chars_of(ns.as_str()), &chars_of("/")),
                    &chars_of(self.name.as_str()),
                ),
            ),
            None => self.name.clone(),
        }
    }
}

/// Position of the first entry of `es` whose key is `key`.
fn position_of<V>(es: &Vec<(String, V)>, key: &String) -> (r: Option<usize>)
    ensures
        match r {
            Some(j) => j < es@.len() && es@[j as int].0@ == key@ && forall|k: int|
                0 <= k < j ==> es@[k].0@ != key@,
            None => forall|k: int| 0 <= k < es@.len() ==> es@[k].0@ != key@,
        },
{
    let mut j: usize = 0;
    while j < es.len()
        invariant
            j <= es@.len(),
            forall|k: int| 0 <= k < j ==> es@[k].0@ != key@,
        decreases es@.len() - j,
    {
        if es[j].0 == *key {
            return Some(j);
        }
        j += 1;
    }
    None
}

impl ResourceReport {
    /// The report's invariant: one count and one record list per kind, kinds
    /// unique and in the same order in both, each count the length of its
    /// list, and the total the sum of the counts.
    pub open spec fn wf(&self) -> bool {
        let cs = counts_view(self.resource_counts@);
        let gs = groups_view(self.resources@);
        &&& kinds_unique(cs)
        &&& cs.len() == gs.len()
        &&& forall|i: int| 0 <= i < cs.len() ==> cs[i].0 == gs[i].0 && cs[i].1 == gs[i].1.len()
        &&& self.total_resources as nat == sum_counts(cs)
    }

    /// The count of kind `k`.
    pub open spec fn count_of(&self, k: Seq<char>) -> nat {
        count_in(counts_view(self.resource_counts@), k)
    }

    /// An empty report for the values set `values_file`.
    pub fn new(values_file: String) -> (r: Self)
        ensures
            r.wf(),
            r.values_file == values_file,
            r.resource_counts@.len() == 0,
            r.resources@.len() == 0,
            r.total_resources == 0,
    {
        let r = ResourceReport {
            values_file,
            resource_counts: Vec::new(),
            resources: Vec::new(),
            total_resources: 0,
        };
        assert(counts_view(r.resource_counts@) =~= Seq::empty());
        r
    }

    /// Records one resource of kind `resource_type`.
    pub fn add_resource(&mut self, resource_type: String, resource: ResourceInfo)
        requires
            old(self).wf(),
            old(self).total_resources < u32::MAX,
        ensures
            final(self).wf(),
            final(self).values_file == old(self).values_file,
            final(self).total_resources == old(self).total_resources + 1,
            counts_view(final(self).resource_counts@) == counts_after(
                counts_view(old(self).resource_counts@),
                resource_type@,
            ),
            groups_view(final(self).resources@) == groups_after(
                groups_view(old(self).resources@),
                resource_type@,
                info_view(resource),
            ),
            forall|k: Seq<char>|
                #[trigger] final(self).count_of(k) == old(self).count_of(k) + if k
                    == resource_type@ {
                    1nat
                } else {
                    0nat
                },
    {
        let ghost cs = counts_view(self.resource_counts@);
        let ghost gs = groups_view(self.resources@);
        let ghost k = resource_type@;
        match position_of(&self.resource_counts, &resource_type) {
            Some(i) => {
                proof {
                    lemma_kind_pos(cs, i as int);
                    assert(gs[i as int].0 == k);
                    lemma_count_le_sum(cs, i as int);
                }
                let c = self.resource_counts[i].1;
                let key = self.resource_counts[i].0.clone();
                self.resource_counts[i] = (key, c + 1);
                let (gk, mut group) = self.resources.remove(i);
                group.push(resource);
                self.resources.insert(i, (gk, group));
                proof {
                    let ncs = counts_view(self.resource_counts@);
                    let ngs = groups_view(self.resources@);
                    assert(ncs =~= cs.update(i as int, (k, cs[i as int].1 + 1)));
                    assert(infos_view(group@) =~= gs[i as int].1.push(info_view(resource)));
                    assert(ngs =~= gs.update(
                        i as int,
                        (k, gs[i as int].1.push(info_view(resource))),
                    ));
                    lemma_sum_update(cs, i as int, (k, cs[i as int].1 + 1));
                    assert(kinds_unique(ncs)) by {
                        assert forall|a: int, b: int| 0 <= a < b < ncs.len() implies ncs[a].0
                            != ncs[b].0 by {
                            assert(cs[a].0 != cs[b].0);
                        }
                    }
                }
            },
            None => {
                proof {
                    assert(!has_kind(cs, k));
                    assert(!has_kind(gs, k)) by {
                        if has_kind(gs, k) {
                            let j = kind_pos(gs, k);
                            assert(cs[j].0 == k);
                        }
                    }
                }
                let key = resource_type.clone();
                self.resource_counts.push((key, 1));
                let mut group: Vec<ResourceInfo> = Vec::new();
                group.push(resource);
                self.resources.push((resource_type, group));
                proof {
                    let ncs = counts_view(self.resource_counts@);
                    let ngs = groups_view(self.resources@);
                    assert(ncs =~= cs.push((k, 1)));
                    assert(infos_view(group@) =~= seq![info_view(resource)]);
                    assert(ngs =~= gs.push((k, seq![info_view(resource)])));
                    assert(ncs.drop_last() =~= cs);
                    assert(kinds_unique(ncs)) by {
                        assert forall|a: int, b: int| 0 <= a < b < ncs.len() implies ncs[a].0
                            != ncs[b].0 by {
                            if b < cs.len() {
                                assert(cs[a].0 != cs[b].0);
                            } else {
                                assert(cs[a].0 != k);
                            }
                        }
                    }
                }
            },
        }
        self.total_resources = self.total_resources + 1;
        assert forall|k2: Seq<char>| #[trigger] self.count_of(k2) == count_in(cs, k2) + if k2 == k {
            1nat
        } else {
            0nat
        } by {
            lemma_add_count(cs, k, 1, k2);
        }
    }

    /// Whether the report keeps its invariant (see [`ResourceReport::wf`]).
    pub fn is_well_formed(&self) -> (r: bool)
        ensures
            r == self.wf(),
    {
        let ghost cs = counts_view(self.resource_counts@);
        let ghost gs = groups_view(self.resources@);
        let n = self.resource_counts.len();
        if n != self.resources.len() {
            return false;
        }
        let mut sum: u64 = 0;
        let mut i: usize = 0;
        assert(cs.subrange(0, 0) =~= Seq::<(Seq<char>, nat)>::empty());
        while i < n
            invariant
                i <= n,
                n == cs.len(),
                cs.len() == gs.len(),
                cs == counts_view(self.resource_counts@),
                gs == groups_view(self.resources@),
                forall|k: int| 0 <= k < i ==> cs[k].0 == gs[k].0 && cs[k].1 == gs[k].1.len(),
                forall|a: int, b: int| 0 <= a < b < i ==> cs[a].0 != cs[b].0,
                sum as nat == sum_counts(cs.subrange(0, i as int)),
                sum <= u32::MAX,
            decreases n - i,
        {
            assert(cs[i as int] == (self.resource_counts@[i as int].0@, self.resource_counts@[i as int].1 as nat));
            assert(gs[i as int].0 == self.resources@[i as int].0@);
            assert(gs[i as int].1.len() == self.resources@[i as int].1@.len());
            if self.resource_counts[i].0 != self.resources[i].0 {
                return false;
            }
            if self.resource_counts[i].1 as usize != self.resources[i].1.len() {
                return false;
            }
            let mut a: usize = 0;
            while a < i
                invariant
                    a <= i,
                    i < n,
                    n == cs.len(),
                    cs == counts_view(self.resource_counts@),
                    forall|b: int| 0 <= b < a ==> cs[b].0 != cs[i as int].0,
                decreases i - a,
            {
                assert(cs[a as int].0 == self.resource_counts@[a as int].0@);
                assert(cs[i as int].0 == self.resource_counts@[i as int].0@);
                if self.resource_counts[a].0 == self.resource_counts[i].0 {
                    assert(!kinds_unique(cs));
                    return false;
                }
                a += 1;
            }
            proof {
                lemma_sum_prefix(cs, i as int);
                lemma_sum_prefix(cs, i + 1);
            }
            sum = sum + self.resource_counts[i].1 as u64;
            if sum > u32::MAX as u64 {
                return false;
            }
            i += 1;
        }
        assert(cs.subrange(0, n as int) =~= cs);
        sum == self.total_resources as u64
    }

    /// The count of kind `resource_type`; zero where none was found.
    pub fn get_count(&self, resource_type: &str) -> (r: u32)
        requires
            self.wf(),
        ensures
            r as nat == self.count_of(resource_type@),
    {
        let key = resource_type.to_owned();
        let ghost cs = counts_view(self.resource_counts@);
        match position_of(&self.resource_counts, &key) {
            Some(i) => {
                proof {
                    lemma_kind_pos(cs, i as int);
                }
                self.resource_counts[i].1
            },
            None => {
                assert(!has_kind(cs, resource_type@));
                0
            },
        }
    }

    /// The kinds found, in order.
    pub fn get_resource_types(&self) -> (r: Vec<String>)
        ensures
            r@.to_multiset() == kind_names(self.resource_counts@).to_multiset(),
            texts_sorted(strings_view(r@)),
    {
        let mut kinds: Vec<String> = Vec::new();
        let mut i: usize = 0;
        while i < self.resource_counts.len()
            invariant
                i <= self.resource_counts@.len(),
                kinds@ =~= kind_names(self.resource_counts@).subrange(0, i as int),
            decreases self.resource_counts@.len() - i,
        {
            kinds.push(self.resource_counts[i].0.clone());
            i += 1;
        }
        assert(kinds@ =~= kind_names(self.resource_counts@));
        sort_texts(kinds)
    }

    /// Whether any resource was found.
    pub fn has_resources(&self) -> (r: bool)
        ensures
            r == (self.total_resources > 0),
    {
        self.total_resources > 0
    }
}

/// The kinds of a list of counts.
pub open spec fn kind_names(v: Seq<(String, u32)>) -> Seq<String> {
    Seq::new(v.len(), |i: int| v[i].0)
}

/// `acc` with the counts `cs` added, kind by kind.
pub open spec fn add_counts(acc: Seq<(Seq<char>, nat)>, cs: Seq<(Seq<char>, nat)>) -> Seq<
    (Seq<char>, nat),
>
    decreases cs.len(),
{
    if cs.len() == 0 {
        acc
    } else {
        add_count(add_counts(acc, cs.drop_last()), cs.last().0, cs.last().1)
    }
}

/// The counts of all reports of `rs` summed per kind, kinds in order of
/// first appearance.
pub open spec fn summary_of(rs: Seq<(Seq<char>, ResourceReport)>) -> Seq<(Seq<char>, nat)>
    decreases rs.len(),
{
    if rs.len() == 0 {
        Seq::empty()
    } else {
        add_counts(summary_of(rs.drop_last()), counts_view(rs.last().1.resource_counts@))
    }
}

/// The reports of an analysis, keyed by the text of each values-set name.
pub open spec fn reports_view(v: Seq<(String, ResourceReport)>) -> Seq<
    (Seq<char>, ResourceReport),
> {
    Seq::new(v.len(), |i: int| (v[i].0@, v[i].1))
}

/// The reports after adding `report` under `name`: it replaces the report
/// already held under that name, or else comes last.
pub open spec fn reports_after(
    rs: Seq<(Seq<char>, ResourceReport)>,
    name: Seq<char>,
    report: ResourceReport,
) -> Seq<(Seq<char>, ResourceReport)> {
    if has_kind(rs, name) {
        rs.update(kind_pos(rs, name), (name, report))
    } else {
        rs.push((name, report))
    }
}

impl ChartAnalysis {
    /// A new analysis with no reports yet; the report metadata is taken from
    /// the descriptor, with its dependencies counted.
    pub fn new(
        chart_name: String,
        chart_version: String,
        chart_path: String,
        metadata: chart::ChartMetadata,
    ) -> (r: Self)
        requires
            metadata.dependencies is Some ==> metadata.dependencies->0@.len() <= u32::MAX,
        ensures
            r.chart_name == chart_name,
            r.chart_version == chart_version,
            r.chart_path == chart_path,
            r.values_analyses@.len() == 0,
            r.metadata.description == metadata.description,
            r.metadata.api_version == metadata.api_version,
            r.metadata.chart_type == metadata.chart_type,
            r.metadata.keywords == metadata.keywords,
            r.metadata.dependency_count as nat == match metadata.dependencies {
                Some(d) => d@.len(),
                None => 0,
            },
    {
        let dependency_count: u32 = match &metadata.dependencies {
            Some(deps) => deps.len() as u32,
            None => 0,
        };
        ChartAnalysis {
            chart_name,
            chart_version,
            chart_path,
            values_analyses: Vec::new(),
            metadata: ChartMetadata {
                description: metadata.description,
                api_version: metadata.api_version,
                chart_type: metadata.chart_type,
                keywords: metadata.keywords,
                dependency_count,
            },
        }
    }

    /// Holds `report` under the name `values_file`, replacing any report
    /// already held under that name.
    pub fn add_resource_report(&mut self, values_file: String, report: ResourceReport)
        requires
            kinds_unique(reports_view(old(self).values_analyses@)),
        ensures
            kinds_unique(reports_view(final(self).values_analyses@)),
            reports_view(final(self).values_analyses@) == reports_after(
                reports_view(old(self).values_analyses@),
                values_file@,
                report,
            ),
            final(self).chart_name == old(self).chart_name,
            final(self).chart_version == old(self).chart_version,
            final(self).chart_path == old(self).chart_path,
            final(self).metadata == old(self).metadata,
    {
        let ghost rs = reports_view(self.values_analyses@);
        let ghost k = values_file@;
        match position_of(&self.values_analyses, &values_file) {
            Some(i) => {
                proof {
                    lemma_kind_pos(rs, i as int);
                }
                self.values_analyses[i] = (values_file, report);
                proof {
                    let n = reports_view(self.values_analyses@);
                    assert(n =~= rs.update(i as int, (k, report)));
                    assert forall|a: int, b: int| 0 <= a < b < n.len() implies n[a].0
                        != n[b].0 by {
                        assert(rs[a].0 != rs[b].0);
                    }
                }
            },
            None => {
                self.values_analyses.push((values_file, report));
                proof {
                    let n = reports_view(self.values_analyses@);
                    assert(n =~= rs.push((k, report)));
                    assert(!has_kind(rs, k));
                    assert forall|a: int, b: int| 0 <= a < b < n.len() implies n[a].0
                        != n[b].0 by {
                        if b < rs.len() {
                            assert(rs[a].0 != rs[b].0);
                        } else {
                            assert(rs[a].0 != k);
                        }
                    }
                }
            },
        }
    }

    /// The counts of all reports summed per kind, kinds in order of first
    /// appearance.
    pub fn get_resource_summary(&self) -> (r: Vec<(String, u32)>)
        requires
            forall|i: int| 0 <= i < self.values_analyses@.len() ==> (#[trigger] self.values_analyses@[i]).1.wf(),
            forall|k: Seq<char>|
                #[trigger] summed_count(reports_view(self.values_analyses@), k) <= u32::MAX,
        ensures
            counts_view(r@) == summary_of(reports_view(self.values_analyses@)),
            kinds_unique(counts_view(r@)),
            forall|k: Seq<char>|
                #[trigger] count_in(counts_view(r@), k) == summed_count(
                    reports_view(self.values_analyses@),
                    k,
                ),
    {
        let ghost rs = reports_view(self.values_analyses@);
        assert forall|m: int| 0 <= m < rs.len() implies (#[trigger] rs[m]).1.wf() by {
            assert(rs[m].1 == self.values_analyses@[m].1);
        }
        let mut summary: Vec<(String, u32)> = Vec::new();
        let mut i: usize = 0;
        assert(counts_view(summary@) =~= Seq::empty());
        while i < self.values_analyses.len()
            invariant
                i <= rs.len(),
                rs == reports_view(self.values_analyses@),
                forall|m: int| 0 <= m < rs.len() ==> (#[trigger] rs[m]).1.wf(),
                forall|k: Seq<char>| #[trigger] summed_count(rs, k) <= u32::MAX,
                counts_view(summary@) == summary_of(rs.subrange(0, i as int)),
            decreases rs.len() - i,
        {
            let report = &self.values_analyses[i].1;
            assert(rs[i as int].1 == *report);
            let ghost cs = counts_view(report.resource_counts@);
            let ghost pre = rs.subrange(0, i as int);
            let ghost base = summary_of(pre);
            proof {
                assert(rs.subrange(0, i + 1).drop_last() =~= pre);
                assert(cs.subrange(0, 0) =~= Seq::<(Seq<char>, nat)>::empty());
                assert forall|m: int| 0 <= m < pre.len() implies (#[trigger] pre[m]).1.wf() by {
                    assert(pre[m] == rs[m]);
                }
                lemma_summary_counts(pre, Seq::empty());
            }
            let mut j: usize = 0;
            while j < report.resource_counts.len()
                invariant
                    j <= cs.len(),
                    i < rs.len(),
                    rs[i as int].1 == *report,
                    pre == rs.subrange(0, i as int),
                    base == summary_of(pre),
                    kinds_unique(base),
                    forall|m: int| 0 <= m < pre.len() ==> (#[trigger] pre[m]).1.wf(),
                    cs == counts_view(report.resource_counts@),
                    report.wf(),
                    forall|k: Seq<char>| #[trigger] summed_count(rs, k) <= u32::MAX,
                    counts_view(summary@) == add_counts(base, cs.subrange(0, j as int)),
                decreases cs.len() - j,
            {
                let ghost acc = counts_view(summary@);
                let ghost kk = cs[j as int].0;
                proof {
                    assert(cs.subrange(0, j + 1).drop_last() =~= cs.subrange(0, j as int));
                    assert(kinds_unique(cs.subrange(0, j as int)));
                    lemma_add_counts(base, cs.subrange(0, j as int), kk);
                }
                let key = &report.resource_counts[j].0;
                let c = report.resource_counts[j].1;
                match position_of(&summary, key) {
                    Some(p) => {
                        proof {
                            lemma_kind_pos(acc, p as int);
                            lemma_summary_counts(pre, kk);
                            lemma_kind_pos(cs, j as int);
                            assert(!has_kind(cs.subrange(0, j as int), kk)) by {
                                if has_kind(cs.subrange(0, j as int), kk) {
                                    let q = kind_pos(cs.subrange(0, j as int), kk);
                                    assert(cs[q].0 != cs[j as int].0);
                                }
                            }
                            lemma_summed_prefix(rs, i as int, kk);
                            assert(acc[p as int].1 + c <= summed_count(rs, kk));
                        }
                        let k2 = summary[p].0.clone();
                        let total = summary[p].1 + c;
                        summary[p] = (k2, total);
                        proof {
                            let n = counts_view(summary@);
                            assert(n =~= acc.update(p as int, (kk, (acc[p as int].1 + c) as nat)));
                        }
                    },
                    None => {
                        summary.push((key.clone(), c));
                        proof {
                            let n = counts_view(summary@);
                            assert(!has_kind(acc, kk));
                            assert(n =~= acc.push((kk, c as nat)));
                        }
                    },
                }
                j += 1;
            }
            assert(cs.subrange(0, j as int) =~= cs);
            i += 1;
        }
        assert(rs.subrange(0, i as int) =~= rs);
        assert forall|k: Seq<char>| #[trigger] count_in(counts_view(summary@), k) == summed_count(
            rs,
            k,
        ) by {
            lemma_summary_counts(rs, k);
        }
        proof {
            lemma_summary_counts(rs, Seq::empty());
        }
        summary
    }

    /// The number of values sets analysed.
    pub fn values_file_count(&self) -> (r: usize)
        ensures
            r == self.values_analyses@.len(),
    {
        self.values_analyses.len()
    }

    /// The report held under the name `values_file`.
    pub fn get_report(&self, values_file: &str) -> (r: Option<&ResourceReport>)
        requires
            kinds_unique(reports_view(self.values_analyses@)),
        ensures
            match r {
                Some(rep) => has_kind(reports_view(self.values_analyses@), values_file@) && *rep
                    == reports_view(self.values_analyses@)[kind_pos(
                    reports_view(self.values_analyses@),
                    values_file@,
                )].1,
                None => !has_kind(reports_view(self.values_analyses@), values_file@),
            },
    {
        let key = values_file.to_owned();
        let ghost rs = reports_view(self.values_analyses@);
        match position_of(&self.values_analyses, &key) {
            Some(i) => {
                proof {
                    lemma_kind_pos(rs, i as int);
                }
                Some(&self.values_analyses[i].1)
            },
            None => {
                assert(!has_kind(rs, values_file@));
                None
            },
        }
    }
}

/// The format named by an already lower-cased extension.
pub open spec fn format_named(ext: Seq<char>) -> Option<ReportFormat> {
    if ext == "json"@ {
        Some(ReportFormat::Json)
    } else if ext == "yaml"@ || ext == "yml"@ {
        Some(ReportFormat::Yaml)
    } else {
        None
    }
}

/// What `str::to_lowercase` makes of a text.
pub uninterp spec fn lower_of(s: Seq<char>) -> Seq<char>;

/// Relies on `str::to_lowercase`: the result depends on the characters alone.
#[verifier::external_body]
fn lowercase(s: &str) -> (r: String)
    ensures
        r@ == lower_of(s@),
{
    s.to_lowercase()
}

impl ReportFormat {
    /// The file extension of the format.
    pub fn extension(&self) -> (r: &'static str)
        ensures
            r@ == match self {
                ReportFormat::Json => "json"@,
                ReportFormat::Yaml => "yaml"@,
            },
    {
        match self {
            ReportFormat::Json => "json",
            ReportFormat::Yaml => "yaml",
        }
    }

    /// The format named by `ext`, compared without regard to case.
    pub fn from_extension(ext: &str) -> (r: Option<Self>)
        ensures
            r == format_named(lower_of(ext@)),
    {
        let lower = lowercase(ext);
        Self::from_lowercase_extension(lower.as_str())
    }

    /// The format named by `ext`, which is already lower case.
    pub fn from_lowercase_extension(ext: &str) -> (r: Option<Self>)
        ensures
            r == format_named(ext@),
    {
        let e = chars_of(ext);
        if same_chars(&e, &chars_of("json")) {
            Some(ReportFormat::Json)
        } else if same_chars(&e, &chars_of("yaml")) || same_chars(&e, &chars_of("yml")) {
            Some(ReportFormat::Yaml)
        } else {
            None
        }
    }
}

/// `acc` with `k` added where it is not there yet.
pub open spec fn add_kind(acc: Seq<Seq<char>>, k: Seq<char>) -> Seq<Seq<char>> {
    if acc.contains(k) {
        acc
    } else {
        acc.push(k)
    }
}

/// `acc` with the kinds of `cs` added where they are not there yet.
pub open spec fn add_kinds(acc: Seq<Seq<char>>, cs: Seq<(Seq<char>, nat)>) -> Seq<Seq<char>>
    decreases cs.len(),
{
    if cs.len() == 0 {
        acc
    } else {
        add_kind(add_kinds(acc, cs.drop_last()), cs.last().0)
    }
}

/// Every kind that some report of `rs` holds, once, in order of first appearance.
pub open spec fn union_kinds(rs: Seq<(Seq<char>, ResourceReport)>) -> Seq<Seq<char>>
    decreases rs.len(),
{
    if rs.len() == 0 {
        Seq::empty()
    } else {
        add_kinds(union_kinds(rs.drop_last()), counts_view(rs.last().1.resource_counts@))
    }
}

/// The header cells of a table with the kinds `ts`.
pub open spec fn type_header(ts: Seq<Seq<char>>) -> Seq<char>
    decreases ts.len(),
{
    if ts.len() == 0 {
        Seq::empty()
    } else {
        type_header(ts.drop_last()) + ts.last() + " | "@
    }
}

/// `n` separator cells.
pub open spec fn dashes(n: nat) -> Seq<char>
    decreases n,
{
    if n == 0 {
        Seq::empty()
    } else {
        dashes((n - 1) as nat) + "---|"@
    }
}

/// The count cells of `rep` for the kinds `ts`.
pub open spec fn count_cells(ts: Seq<Seq<char>>, rep: ResourceReport) -> Seq<char>
    decreases ts.len(),
{
    if ts.len() == 0 {
        Seq::empty()
    } else {
        count_cells(ts.drop_last(), rep) + decimal(rep.count_of(ts.last())) + " | "@
    }
}

/// The table rows of the reports `rs` for the kinds `ts`.
pub open spec fn table_rows(rs: Seq<(Seq<char>, ResourceReport)>, ts: Seq<Seq<char>>) -> Seq<char>
    decreases rs.len(),
{
    if rs.len() == 0 {
        Seq::empty()
    } else {
        table_rows(rs.drop_last(), ts) + "| "@ + rs.last().0 + " | "@ + count_cells(
            ts,
            rs.last().1,
        ) + decimal(rs.last().1.total_resources as nat) + " |\n"@
    }
}

/// The text of a description line, where there is a description.
pub open spec fn description_line(d: Option<String>) -> Seq<char> {
    match d {
        Some(d) => "**Description:** "@ + d@ + "\n\n"@,
        None => Seq::empty(),
    }
}

/// The opening lines of a chart's section, up to the first header cell.
pub open spec fn section_head(a: ChartAnalysis) -> Seq<char> {
    "## Chart: "@ + a.chart_name@ + " ("@ + a.chart_version@ + ")\n\n"@ + description_line(
        a.metadata.description,
    ) + "**Path:** "@ + a.chart_path@ + "\n\n"@ + "**Dependencies:** "@ + decimal(
        a.metadata.dependency_count as nat,
    ) + "\n\n"@ + "### Resource Summary\n\n"@ + "| Values File | "@
}

/// The summary section of one chart, with the kinds `ts` as columns.
pub open spec fn chart_section(a: ChartAnalysis, ts: Seq<Seq<char>>) -> Seq<char> {
    section_head(a) + type_header(ts) + "Total |\n"@ + "|"@ + dashes(ts.len() + 1) + "\n"@
        + table_rows(reports_view(a.values_analyses@), ts) + "\n"@
}

/// The sections of the charts `cs`, the `i`-th with the columns `tss[i]`.
pub open spec fn chart_sections(cs: Seq<ChartAnalysis>, tss: Seq<Seq<String>>) -> Seq<char>
    decreases cs.len(),
{
    if cs.len() == 0 || tss.len() == 0 {
        Seq::empty()
    } else {
        chart_sections(cs.drop_last(), tss.drop_last()) + chart_section(
            cs.last(),
            strings_view(tss.last()),
        )
    }
}

/// `text` is the markdown report of the charts `cs`, the `i`-th chart's table
/// having the columns `tss[i]`, each a list of that chart's kinds in order.
pub open spec fn is_summary_with(tss: Seq<Seq<String>>, cs: Seq<ChartAnalysis>, text: Seq<char>) -> bool {
    &&& tss.len() == cs.len()
    &&& forall|i: int| 0 <= i < cs.len() ==> is_kind_columns(#[trigger] tss[i], cs[i])
    &&& text == "# Helm Chart Analysis Report\n\n"@ + chart_sections(cs, tss)
}

/// The columns of a chart's table: its kinds in order.
pub open spec fn is_kind_columns(ts: Seq<String>, a: ChartAnalysis) -> bool {
    &&& texts_sorted(strings_view(ts))
    &&& exists|found: Seq<String>|
        strings_view(found) == union_kinds(reports_view(a.values_analyses@))
            && ts.to_multiset() == found.to_multiset()
}

/// The analyses' reports are all well formed.
pub open spec fn reports_wf(a: ChartAnalysis) -> bool {
    forall|i: int| 0 <= i < a.values_analyses@.len() ==> (#[trigger] a.values_analyses@[i]).1.wf()
}

fn append_chars(out: &mut Vec<char>, t: &Vec<char>)
    ensures
        final(out)@ == old(out)@ + t@,
{
    let ghost start = out@;
    let mut k: usize = 0;
    while k < t.len()
        invariant
            k <= t@.len(),
            out@ == start + t@.subrange(0, k as int),
        decreases t@.len() - k,
    {
        out.push(t[k]);
        k += 1;
        assert(out@ =~= start + t@.subrange(0, k as int));
    }
    assert(t@.subrange(0, t@.len() as int) =~= t@);
}

fn append_str(out: &mut Vec<char>, t: &str)
    ensures
        final(out)@ == old(out)@ + t@,
{
    append_chars(out, &chars_of(t));
}

/// Whether the text of `k` is among the texts of `v`.
fn holds_text(v: &Vec<String>, k: &String) -> (r: bool)
    ensures
        r == strings_view(v@).contains(k@),
{
    let mut i: usize = 0;
    while i < v.len()
        invariant
            i <= v@.len(),
            forall|m: int| 0 <= m < i ==> v@[m]@ != k@,
        decreases v@.len() - i,
    {
        if v[i] == *k {
            assert(strings_view(v@)[i as int] == k@);
            return true;
        }
        i += 1;
    }
    assert(!strings_view(v@).contains(k@)) by {
        if strings_view(v@).contains(k@) {
            let m = choose|m: int| 0 <= m < v@.len() && strings_view(v@)[m] == k@;
            assert(v@[m]@ == k@);
        }
    }
    false
}

/// The kinds of all reports of `a`, once each, in order.
fn kind_columns(a: &ChartAnalysis) -> (r: Vec<String>)
    ensures
        is_kind_columns(r@, *a),
{
    let ghost rs = reports_view(a.values_analyses@);
    let mut found: Vec<String> = Vec::new();
    let mut i: usize = 0;
    while i < a.values_analyses.len()
        invariant
            i <= rs.len(),
            rs == reports_view(a.values_analyses@),
            strings_view(found@) == union_kinds(rs.subrange(0, i as int)),
        decreases rs.len() - i,
    {
        let report = &a.values_analyses[i].1;
        assert(rs[i as int].1 == *report);
        let ghost cs = counts_view(report.resource_counts@);
        let ghost base = union_kinds(rs.subrange(0, i as int));
        assert(rs.subrange(0, i + 1).drop_last() =~= rs.subrange(0, i as int));
        assert(cs.subrange(0, 0) =~= Seq::<(Seq<char>, nat)>::empty());
        let mut j: usize = 0;
        while j < report.resource_counts.len()
            invariant
                j <= cs.len(),
                cs == counts_view(report.resource_counts@),
                strings_view(found@) == add_kinds(base, cs.subrange(0, j as int)),
            decreases cs.len() - j,
        {
            let ghost prev = found@;
            assert(cs.subrange(0, j + 1).drop_last() =~= cs.subrange(0, j as int));
            let key = &report.resource_counts[j].0;
            if !holds_text(&found, key) {
                found.push(key.clone());
                assert(strings_view(found@) =~= strings_view(prev).push(key@));
            }
            j += 1;
        }
        assert(cs.subrange(0, j as int) =~= cs);
        i += 1;
    }
    assert(rs.subrange(0, i as int) =~= rs);
    let ghost f = found@;
    let sorted = sort_texts(found);
    assert(strings_view(f) == union_kinds(reports_view(a.values_analyses@)) && sorted@.to_multiset()
        == f.to_multiset());
    sorted
}

fn write_section_head(out: &mut Vec<char>, a: &ChartAnalysis)
    ensures
        final(out)@ == old(out)@ + section_head(*a),
{
    let ghost start = out@;
    append_str(out, "## Chart: ");
    append_str(out, a.chart_name.as_str());
    append_str(out, " (");
    append_str(out, a.chart_version.as_str());
    append_str(out, ")\n\n");
    let ghost mid = out@;
    if let Some(d) = &a.metadata.description {
        append_str(out, "**Description:** ");
        append_str(out, d.as_str());
        append_str(out, "\n\n");
    }
    assert(out@ =~= mid + description_line(a.metadata.description));
    append_str(out, "**Path:** ");
    append_str(out, a.chart_path.as_str());
    append_str(out, "\n\n");
    append_str(out, "**Dependencies:** ");
    append_chars(out, &decimal_chars(a.metadata.dependency_count as u64));
    append_str(out, "\n\n");
    append_str(out, "### Resource Summary\n\n");
    append_str(out, "| Values File | ");
    assert(out@ =~= start + section_head(*a));
}

fn write_type_header(out: &mut Vec<char>, columns: &Vec<String>)
    ensures
        final(out)@ == old(out)@ + type_header(strings_view(columns@)),
{
    let ghost ts = strings_view(columns@);
    let ghost start = out@;
    let mut k: usize = 0;
    while k < columns.len()
        invariant
            k <= columns@.len(),
            ts == strings_view(columns@),
            out@ == start + type_header(ts.subrange(0, k as int)),
        decreases columns@.len() - k,
    {
        assert(ts.subrange(0, k + 1).drop_last() =~= ts.subrange(0, k as int));
        append_str(out, columns[k].as_str());
        append_str(out, " | ");
        k += 1;
    }
    assert(ts.subrange(0, k as int) =~= ts);
}

fn write_dashes(out: &mut Vec<char>, n: usize)
    ensures
        final(out)@ == old(out)@ + dashes(n as nat + 1),
{
    let ghost start = out@;
    let mut d: usize = 0;
    assert(start + dashes(0) =~= start);
    while d < n
        invariant
            d <= n,
            out@ == start + dashes(d as nat),
        decreases n - d,
    {
        append_str(out, "---|");
        d += 1;
    }
    append_str(out, "---|");
}

fn write_row(out: &mut Vec<char>, name: &String, report: &ResourceReport, columns: &Vec<String>)
    requires
        report.wf(),
    ensures
        final(out)@ == old(out)@ + "| "@ + name@ + " | "@ + count_cells(
            strings_view(columns@),
            *report,
        ) + decimal(report.total_resources as nat) + " |\n"@,
{
    let ghost ts = strings_view(columns@);
    let ghost start = out@;
    append_str(out, "| ");
    append_str(out, name.as_str());
    append_str(out, " | ");
    let ghost before_cells = out@;
    let mut c: usize = 0;
    while c < columns.len()
        invariant
            c <= columns@.len(),
            ts == strings_view(columns@),
            report.wf(),
            out@ == before_cells + count_cells(ts.subrange(0, c as int), *report),
        decreases columns@.len() - c,
    {
        assert(ts.subrange(0, c + 1).drop_last() =~= ts.subrange(0, c as int));
        let n = report.get_count(columns[c].as_str());
        append_chars(out, &decimal_chars(n as u64));
        append_str(out, " | ");
        c += 1;
    }
    assert(ts.subrange(0, c as int) =~= ts);
    append_chars(out, &decimal_chars(report.total_resources as u64));
    append_str(out, " |\n");
}

fn write_rows(out: &mut Vec<char>, a: &ChartAnalysis, columns: &Vec<String>)
    requires
        reports_wf(*a),
    ensures
        final(out)@ == old(out)@ + table_rows(reports_view(a.values_analyses@), strings_view(columns@)),
{
    let ghost ts = strings_view(columns@);
    let ghost start = out@;
    let ghost rs = reports_view(a.values_analyses@);
    let mut i: usize = 0;
    assert(start + table_rows(rs.subrange(0, 0), ts) =~= start);
    while i < a.values_analyses.len()
        invariant
            i <= rs.len(),
            rs == reports_view(a.values_analyses@),
            reports_wf(*a),
            ts == strings_view(columns@),
            out@ == start + table_rows(rs.subrange(0, i as int), ts),
        decreases rs.len() - i,
    {
        assert(rs.subrange(0, i + 1).drop_last() =~= rs.subrange(0, i as int));
        let name = &a.values_analyses[i].0;
        let report = &a.values_analyses[i].1;
        assert(rs[i as int] == (name@, *report));
        assert(report.wf());
        write_row(out, name, report, columns);
        i += 1;
    }
    assert(rs.subrange(0, i as int) =~= rs);
}

/// The summary section of one chart.
fn write_chart_section(out: &mut Vec<char>, a: &ChartAnalysis, columns: &Vec<String>)
    requires
        reports_wf(*a),
    ensures
        final(out)@ == old(out)@ + chart_section(*a, strings_view(columns@)),
{
    let ghost start = out@;
    write_section_head(out, a);
    write_type_header(out, columns);
    append_str(out, "Total |\n");
    append_str(out, "|");
    write_dashes(out, columns.len());
    append_str(out, "\n");
    write_rows(out, a, columns);
    append_str(out, "\n");
    assert(out@ =~= start + chart_section(*a, strings_view(columns@)));
}

/// A markdown report of `analyses`: a title, then for each chart its
/// identity, description, path and dependency count, and a table with a row
/// per values set and a column per kind found in any of its reports, kinds in
/// order, ending with the total.
pub fn generate_markdown_summary(analyses: &Vec<ChartAnalysis>) -> (r: String)
    requires
        forall|i: int| 0 <= i < analyses@.len() ==> reports_wf(#[trigger] analyses@[i]),
    ensures
        exists|tss: Seq<Seq<String>>| is_summary_with(tss, analyses@, r@),
{
    let mut out: Vec<char> = Vec::new();
    append_str(&mut out, "# Helm Chart Analysis Report\n\n");
    let ghost head = out@;
    let ghost mut tss: Seq<Seq<String>> = Seq::empty();
    let mut i: usize = 0;
    while i < analyses.len()
        invariant
            i <= analyses@.len(),
            forall|m: int| 0 <= m < analyses@.len() ==> reports_wf(#[trigger] analyses@[m]),
            tss.len() == i,
            forall|m: int| 0 <= m < i ==> is_kind_columns(#[trigger] tss[m], analyses@[m]),
            head == "# Helm Chart Analysis Report\n\n"@,
            out@ == head + chart_sections(analyses@.subrange(0, i as int), tss),
        decreases analyses@.len() - i,
    {
        let a = &analyses[i];
        let columns = kind_columns(a);
        write_chart_section(&mut out, a, &columns);
        proof {
            let ntss = tss.push(columns@);
            assert(ntss.drop_last() =~= tss);
            assert(analyses@.subrange(0, i + 1).drop_last() =~= analyses@.subrange(0, i as int));
            tss = ntss;
        }
        i += 1;
    }
    assert(analyses@.subrange(0, i as int) =~= analyses@);
    assert(is_summary_with(tss, analyses@, out@));
    string_of(&out)
}

} // verus!
