//! Merging the jobs of several documents by name, and selecting among them.
use vstd::prelude::*;

use crate::job::{Job, JobView};
use crate::parse::views;
use crate::render::markdown_of;
use crate::text::{chars_lt, chars_of, lemma_lt_irreflexive, lemma_lt_total, lemma_lt_transitive, seq_lt};

verus! {

/// The documentation of each job name.
pub type DocMap = Map<Seq<char>, Option<Seq<char>>>;

/// Records the jobs into `m` in order: a later job replaces an earlier one of
/// the same name.
pub open spec fn merge_seq(m: DocMap, jobs: Seq<JobView>) -> DocMap
    decreases jobs.len(),
{
    if jobs.len() == 0 {
        m
    } else {
        merge_seq(m, jobs.drop_last()).insert(jobs.last().name, jobs.last().doc)
    }
}

/// The jobs of several documents, one document after the other.
pub open spec fn concat_jobs(lists: Seq<Seq<JobView>>) -> Seq<JobView>
    decreases lists.len(),
{
    if lists.len() == 0 {
        Seq::empty()
    } else {
        concat_jobs(lists.drop_last()) + lists.last()
    }
}

/// The merged jobs of several documents, the last document winning.
pub open spec fn merged(lists: Seq<Seq<JobView>>) -> DocMap {
    merge_seq(Map::empty(), concat_jobs(lists))
}

/// Names strictly increase along the sequence.
pub open spec fn sorted_by_name(s: Seq<JobView>) -> bool {
    forall|i: int, j: int| 0 <= i < j < s.len() ==> seq_lt(#[trigger] s[i].name, #[trigger] s[j].name)
}

/// The sequence lists exactly the entries of `m`.
pub open spec fn lists_map(s: Seq<JobView>, m: DocMap) -> bool {
    &&& forall|i: int| 0 <= i < s.len() ==> m.contains_key(#[trigger] s[i].name) && m[s[i].name] == s[i].doc
    &&& forall|k: Seq<char>| #[trigger] m.contains_key(k) ==> exists|i: int| 0 <= i < s.len() && s[i].name == k
}

pub open spec fn list_views(lists: Seq<Vec<Job>>) -> Seq<Seq<JobView>> {
    lists.map_values(|v: Vec<Job>| views(v@))
}

/// Whether a job passes the selection filters.
pub open spec fn keep(j: JobView, only_hidden: bool, only_documented: bool) -> bool {
    (!only_hidden || j.hidden()) && (!only_documented || j.documented())
}

/// The jobs that pass the selection filters, in their order.
pub open spec fn filtered(s: Seq<JobView>, only_hidden: bool, only_documented: bool) -> Seq<JobView>
    decreases s.len(),
{
    if s.len() == 0 {
        Seq::empty()
    } else {
        let f = filtered(s.drop_last(), only_hidden, only_documented);
        if keep(s.last(), only_hidden, only_documented) {
            f.push(s.last())
        } else {
            f
        }
    }
}

/// The names of the undocumented jobs, in their order.
pub open spec fn undocumented(s: Seq<JobView>) -> Seq<Seq<char>>
    decreases s.len(),
{
    if s.len() == 0 {
        Seq::empty()
    } else if s.last().doc is None {
        undocumented(s.drop_last()).push(s.last().name)
    } else {
        undocumented(s.drop_last())
    }
}

// ----- laws -----

/// Merging records the jobs over what was there before.
pub proof fn lemma_merge_seq_over(m: DocMap, f: Seq<JobView>)
    ensures
        merge_seq(m, f) == m.union_prefer_right(merge_seq(Map::empty(), f)),
    decreases f.len(),
{
    if f.len() > 0 {
        lemma_merge_seq_over(m, f.drop_last());
        assert(merge_seq(m, f) =~= m.union_prefer_right(merge_seq(Map::empty(), f)));
    } else {
        assert(merge_seq(m, f) =~= m.union_prefer_right(merge_seq(Map::empty(), f)));
    }
}

/// Merging two runs of jobs is merging the first, then the second.
pub proof fn lemma_merge_seq_concat(m: DocMap, a: Seq<JobView>, b: Seq<JobView>)
    ensures
        merge_seq(m, a + b) == merge_seq(merge_seq(m, a), b),
    decreases b.len(),
{
    if b.len() == 0 {
        assert(a + b =~= a);
    } else {
        lemma_merge_seq_concat(m, a, b.drop_last());
        assert((a + b).drop_last() =~= a + b.drop_last());
    }
}

proof fn lemma_concat_jobs_append(a: Seq<Seq<JobView>>, b: Seq<Seq<JobView>>)
    ensures
        concat_jobs(a + b) == concat_jobs(a) + concat_jobs(b),
    decreases b.len(),
{
    if b.len() == 0 {
        assert(a + b =~= a);
        assert(concat_jobs(a) + concat_jobs(b) =~= concat_jobs(a));
    } else {
        lemma_concat_jobs_append(a, b.drop_last());
        assert((a + b).drop_last() =~= a + b.drop_last());
        assert(concat_jobs(a + b) =~= concat_jobs(a) + concat_jobs(b));
    }
}

/// Merging the same list of documents twice gives the same merged jobs as
/// merging it once.
pub proof fn lemma_merge_twice(lists: Seq<Seq<JobView>>)
    ensures
        merged(lists + lists) == merged(lists),
{
    let f = concat_jobs(lists);
    let e = merge_seq(Map::empty(), f);
    lemma_concat_jobs_append(lists, lists);
    lemma_merge_seq_concat(Map::empty(), f, f);
    lemma_merge_seq_over(e, f);
    assert(e.union_prefer_right(e) =~= e);
}

/// A merged set of jobs has only one listing ordered by name.
pub proof fn lemma_listing_unique(s1: Seq<JobView>, s2: Seq<JobView>, m: DocMap)
    requires
        sorted_by_name(s1),
        sorted_by_name(s2),
        lists_map(s1, m),
        lists_map(s2, m),
    ensures
        s1 == s2,
    decreases s1.len(),
{
    if s1.len() == 0 {
        if s2.len() > 0 {
            assert(m.contains_key(s2[0].name));
        }
        assert(s1 =~= s2);
    } else {
        assert(m.contains_key(s1[0].name));
        let a = s1.last();
        let l1 = s1.len() - 1;
        assert(m.contains_key(s1[l1].name));
        let i2 = choose|i: int| 0 <= i < s2.len() && s2[i].name == a.name;
        let b = s2.last();
        let l2 = s2.len() - 1;
        assert(m.contains_key(s2[l2].name));
        let i1 = choose|i: int| 0 <= i < s1.len() && s1[i].name == b.name;
        lemma_lt_total(a.name, b.name);
        if a.name != b.name {
            assert(i2 < l2 ==> seq_lt(s2[i2].name, s2[l2].name));
            assert(i1 < l1 ==> seq_lt(s1[i1].name, s1[l1].name));
        }
        assert(a == b);
        let m2 = m.remove(a.name);
        let t1 = s1.drop_last();
        let t2 = s2.drop_last();
        lemma_lt_irreflexive(a.name);
        assert forall|i: int| 0 <= i < t1.len() implies t1[i].name != a.name by {
            assert(seq_lt(s1[i].name, s1[l1].name));
        }
        assert forall|i: int| 0 <= i < t2.len() implies t2[i].name != a.name by {
            assert(seq_lt(s2[i].name, s2[l2].name));
        }
        assert forall|k: Seq<char>| #[trigger] m2.contains_key(k) implies exists|i: int| 0 <= i < t1.len() && t1[i].name == k by {
            assert(m.contains_key(k));
            let i = choose|i: int| 0 <= i < s1.len() && s1[i].name == k;
            assert(t1[i].name == k);
        }
        assert forall|k: Seq<char>| #[trigger] m2.contains_key(k) implies exists|i: int| 0 <= i < t2.len() && t2[i].name == k by {
            assert(m.contains_key(k));
            let i = choose|i: int| 0 <= i < s2.len() && s2[i].name == k;
            assert(t2[i].name == k);
        }
        lemma_listing_unique(t1, t2, m2);
        assert(s1 =~= t1.push(a));
        assert(s2 =~= t2.push(b));
    }
}

/// Merging a list of documents twice yields the same listing, hence the same
/// selection and the same rendered document, as merging it once.
pub proof fn lemma_merge_twice_same_output(
    lists: Seq<Seq<JobView>>,
    once: Seq<JobView>,
    twice: Seq<JobView>,
    only_hidden: bool,
    only_documented: bool,
)
    requires
        sorted_by_name(once),
        lists_map(once, merged(lists)),
        sorted_by_name(twice),
        lists_map(twice, merged(lists + lists)),
    ensures
        once == twice,
        markdown_of(filtered(once, only_hidden, only_documented)) == markdown_of(
            filtered(twice, only_hidden, only_documented),
        ),
{
    lemma_merge_twice(lists);
    lemma_listing_unique(once, twice, merged(lists));
}

/// Selecting with both filters is selecting with one filter, then the other:
/// the intersection of the two selections.
pub proof fn lemma_both_filters_intersect(s: Seq<JobView>)
    ensures
        filtered(s, true, true) == filtered(filtered(s, true, false), false, true),
        filtered(s, true, true) == filtered(filtered(s, false, true), true, false),
    decreases s.len(),
{
    if s.len() > 0 {
        lemma_both_filters_intersect(s.drop_last());
        let f1 = filtered(s, true, false);
        let f2 = filtered(s, false, true);
        if keep(s.last(), true, false) {
            assert(f1.drop_last() =~= filtered(s.drop_last(), true, false));
        }
        if keep(s.last(), false, true) {
            assert(f2.drop_last() =~= filtered(s.drop_last(), false, true));
        }
    }
}

/// Selection keeps jobs of the sequence in their order; so a selection out of
/// a listing ordered by name is ordered by name.
pub proof fn lemma_filter_keeps_order(s: Seq<JobView>, only_hidden: bool, only_documented: bool)
    ensures
        forall|i: int| 0 <= i < filtered(s, only_hidden, only_documented).len() ==> exists|k: int|
            0 <= k < s.len() && #[trigger] filtered(s, only_hidden, only_documented)[i] == s[k],
        sorted_by_name(s) ==> sorted_by_name(filtered(s, only_hidden, only_documented)),
    decreases s.len(),
{
    if s.len() > 0 {
        let t = s.drop_last();
        lemma_filter_keeps_order(t, only_hidden, only_documented);
        let ft = filtered(t, only_hidden, only_documented);
        let f = filtered(s, only_hidden, only_documented);
        assert forall|i: int| 0 <= i < f.len() implies exists|k: int| 0 <= k < s.len() && #[trigger] f[i] == s[k] by {
            if i < ft.len() {
                let k = choose|k: int| 0 <= k < t.len() && #[trigger] ft[i] == t[k];
                assert(f[i] == s[k]);
            } else {
                assert(f[i] == s[s.len() - 1]);
            }
        }
        if sorted_by_name(s) {
            assert forall|i: int, j: int| 0 <= i < j < f.len() implies seq_lt(#[trigger] f[i].name, #[trigger] f[j].name) by {
                let ki = choose|k: int| 0 <= k < t.len() && #[trigger] ft[i] == t[k];
                if j < ft.len() {
                    assert(sorted_by_name(ft));
                } else {
                    assert(f[j] == s[s.len() - 1]);
                    assert(f[i] == s[ki]);
                }
            }
        }
    }
}

pub(crate) fn copy_job(j: &Job) -> (r: Job)
    ensures
        r@ == j@,
{
    let doc = match &j.doc {
        Some(d) => Some(d.clone()),
        None => None,
    };
    Job { name: j.name.clone(), doc }
}

/// Records `job` in the sorted listing `out`, replacing a job of the same name.
fn insert_job(out: &mut Vec<Job>, job: Job, Ghost(m): Ghost<DocMap>)
    requires
        sorted_by_name(views(old(out)@)),
        lists_map(views(old(out)@), m),
    ensures
        sorted_by_name(views(final(out)@)),
        lists_map(views(final(out)@), m.insert(job@.name, job@.doc)),
{
    let ghost s = views(out@);
    let ghost x = job@;
    let ghost m2 = m.insert(x.name, x.doc);
    let name = chars_of(job.name.as_str());
    let mut p: usize = 0;
    while p < out.len()
        invariant
            p <= out.len(),
            s == views(out@),
            sorted_by_name(s),
            lists_map(s, m),
            m2 == m.insert(x.name, x.doc),
            x == job@,
            name@ == x.name,
            forall|q: int| 0 <= q < p ==> seq_lt(#[trigger] s[q].name, x.name),
        decreases out.len() - p,
    {
        let other = chars_of(out[p].name.as_str());
        if out[p].name == job.name {
            out.set(p, job);
            let ghost t = views(out@);
            assert(t =~= s.update(p as int, x));
            assert(forall|i: int| 0 <= i < t.len() ==> t[i].name == s[i].name);
            assert forall|i: int| 0 <= i < t.len() && i != p implies s[i].name != x.name by {
                lemma_lt_irreflexive(x.name);
                assert(i < p || seq_lt(s[p as int].name, s[i].name));
            }
            assert forall|k: Seq<char>| #[trigger] m2.contains_key(k) implies exists|i: int| 0 <= i < t.len() && t[i].name == k by {
                if k != x.name {
                    let i = choose|i: int| 0 <= i < s.len() && s[i].name == k;
                    assert(t[i].name == k);
                } else {
                    assert(t[p as int].name == k);
                }
            }
            return;
        }
        if chars_lt(&name, &other) {
            out.insert(p, job);
            let ghost t = views(out@);
            assert(t =~= s.insert(p as int, x));
            assert forall|i: int, j: int| 0 <= i < j < t.len() implies seq_lt(#[trigger] t[i].name, #[trigger] t[j].name) by {
                if j > p as int && i <= p as int {
                    if j > p as int + 1 {
                        lemma_lt_transitive(x.name, s[p as int].name, s[j - 1].name);
                    }
                    assert(seq_lt(x.name, t[j].name));
                    if i < p as int {
                        lemma_lt_transitive(t[i].name, x.name, t[j].name);
                    }
                }
            }
            assert forall|i: int| 0 <= i < s.len() implies s[i].name != x.name by {
                lemma_lt_irreflexive(x.name);
                if i > p as int {
                    lemma_lt_transitive(x.name, s[p as int].name, s[i].name);
                }
            }
            assert forall|k: Seq<char>| #[trigger] m2.contains_key(k) implies exists|i: int| 0 <= i < t.len() && t[i].name == k by {
                if k != x.name {
                    let i = choose|i: int| 0 <= i < s.len() && s[i].name == k;
                    if i < p {
                        assert(t[i].name == k);
                    } else {
                        assert(t[i + 1].name == k);
                    }
                } else {
                    assert(t[p as int].name == k);
                }
            }
            return;
        }
        proof {
            lemma_lt_total(x.name, s[p as int].name);
        }
        p = p + 1;
    }
    out.push(job);
    let ghost t = views(out@);
    assert(t =~= s.push(x));
    assert forall|i: int| 0 <= i < s.len() implies s[i].name != x.name by {
        lemma_lt_irreflexive(x.name);
    }
    assert forall|k: Seq<char>| #[trigger] m2.contains_key(k) implies exists|i: int| 0 <= i < t.len() && t[i].name == k by {
        if k != x.name {
            let i = choose|i: int| 0 <= i < s.len() && s[i].name == k;
            assert(t[i].name == k);
        } else {
            assert(t[s.len() as int].name == k);
        }
    }
}


/// Merges the jobs of several documents, taken in the given order: a job
/// replaces an earlier job of the same name. The result lists each merged job
/// once, ordered by name.
pub fn merge_jobs(lists: &Vec<Vec<Job>>) -> (r: Vec<Job>)
    ensures
        sorted_by_name(views(r@)),
        lists_map(views(r@), merged(list_views(lists@))),
{
    let ghost lv = list_views(lists@);
    let mut out: Vec<Job> = Vec::new();
    let mut i: usize = 0;
    assert(concat_jobs(lv.take(0)) =~= Seq::<JobView>::empty());
    while i < lists.len()
        invariant
            i <= lists.len(),
            lv == list_views(lists@),
            sorted_by_name(views(out@)),
            lists_map(views(out@), merge_seq(Map::empty(), concat_jobs(lv.take(i as int)))),
        decreases lists.len() - i,
    {
        let list = &lists[i];
        let ghost before = concat_jobs(lv.take(i as int));
        let mut j: usize = 0;
        assert(before + lv[i as int].take(0) =~= before);
        while j < list.len()
            invariant
                i < lists.len(),
                j <= list.len(),
                list == lists@[i as int],
                lv == list_views(lists@),
                before == concat_jobs(lv.take(i as int)),
                sorted_by_name(views(out@)),
                lists_map(views(out@), merge_seq(Map::empty(), before + lv[i as int].take(j as int))),
            decreases list.len() - j,
        {
            let job = copy_job(&list[j]);
            let ghost prefix = before + lv[i as int].take(j as int);
            let ghost next = before + lv[i as int].take(j + 1);
            assert(next.drop_last() =~= prefix);
            assert(next.last() == job@);
            insert_job(&mut out, job, Ghost(merge_seq(Map::empty(), prefix)));
            j = j + 1;
        }
        assert(lv.take(i + 1).drop_last() =~= lv.take(i as int));
        assert(lv[i as int].take(list.len() as int) =~= lv[i as int]);
        i = i + 1;
    }
    assert(lv.take(lists.len() as int) =~= lv);
    out
}

/// Keeps the jobs that pass the selection filters, in their order: with
/// `only_hidden` the hidden jobs, with `only_documented` the documented ones.
pub fn select_jobs(jobs: &Vec<Job>, only_hidden: bool, only_documented: bool) -> (r: Vec<Job>)
    ensures
        views(r@) == filtered(views(jobs@), only_hidden, only_documented),
{
    let mut out: Vec<Job> = Vec::new();
    let mut i: usize = 0;
    while i < jobs.len()
        invariant
            i <= jobs.len(),
            views(out@) == filtered(views(jobs@).take(i as int), only_hidden, only_documented),
        decreases jobs.len() - i,
    {
        let ghost s = views(jobs@);
        assert(s.take(i + 1).drop_last() =~= s.take(i as int));
        let job = &jobs[i];
        if (!only_hidden || job.is_hidden()) && (!only_documented || job.is_documented()) {
            let ghost before = out@;
            out.push(copy_job(job));
            assert(views(out@) =~= views(before).push(job@));
        }
        i = i + 1;
    }
    assert(views(jobs@).take(jobs.len() as int) =~= views(jobs@));
    out
}

/// The names of the jobs that carry no documentation, in their order.
pub fn undocumented_names(jobs: &Vec<Job>) -> (r: Vec<String>)
    ensures
        r@.map_values(|n: String| n@) == undocumented(views(jobs@)),
{
    let mut out: Vec<String> = Vec::new();
    let mut i: usize = 0;
    while i < jobs.len()
        invariant
            i <= jobs.len(),
            out@.map_values(|n: String| n@) == undocumented(views(jobs@).take(i as int)),
        decreases jobs.len() - i,
    {
        let ghost s = views(jobs@);
        assert(s.take(i + 1).drop_last() =~= s.take(i as int));
        if !jobs[i].is_documented() {
            let ghost before = out@;
            out.push(jobs[i].name.clone());
            assert(out@.map_values(|n: String| n@) =~= before.map_values(|n: String| n@).push(jobs@[i as int].name@));
        }
        i = i + 1;
    }
    assert(views(jobs@).take(jobs.len() as int) =~= views(jobs@));
    out
}

} // verus!
