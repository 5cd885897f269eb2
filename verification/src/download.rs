use vstd::prelude::*;
use vstd::string::*;

use crate::text::{last_index_of, lemma_last_index_of};
use crate::urls::UrlEntry;

verus! {

/// The final non-empty segment of a `/`-separated path, or `None` when the
/// path holds no non-empty segment at all.
pub open spec fn last_segment(p: Seq<char>) -> Option<Seq<char>>
    decreases p.len(),
{
    if p.len() == 0 {
        None
    } else if p.last() == '/' {
        last_segment(p.drop_last())
    } else {
        match last_index_of(p, '/') {
            None => Some(p),
            Some(i) => Some(p.subrange(i + 1, p.len() as int)),
        }
    }
}

/// One download to perform: the URL to fetch and the file name, derived from
/// the URL's path, that the body is saved under.
pub struct DownloadJob {
    pub url: String,
    pub filename: String,
}

impl DeepView for DownloadJob {
    type V = (Seq<char>, Seq<char>);

    open spec fn deep_view(&self) -> Self::V {
        (self.url@, self.filename@)
    }
}

/// The jobs planned for a list of URL entries: one per entry whose path yields
/// a file name, in order.
pub open spec fn planned_jobs(entries: Seq<(Seq<char>, Seq<char>)>) -> Seq<(Seq<char>, Seq<char>)>
    decreases entries.len(),
{
    if entries.len() == 0 {
        Seq::empty()
    } else {
        let prev = planned_jobs(entries.drop_last());
        match last_segment(entries.last().1) {
            Some(f) => prev.push((entries.last().0, f)),
            None => prev,
        }
    }
}

/// The entries a plan leaves out: those whose path has no non-empty segment.
pub open spec fn unplanned_entries(entries: Seq<(Seq<char>, Seq<char>)>) -> Seq<
    (Seq<char>, Seq<char>),
>
    decreases entries.len(),
{
    if entries.len() == 0 {
        Seq::empty()
    } else {
        let prev = unplanned_entries(entries.drop_last());
        match last_segment(entries.last().1) {
            Some(f) => prev,
            None => prev.push(entries.last()),
        }
    }
}

/// The files saved after all fetches settle: one per job whose fetch returned a
/// body, named by the job's file name and holding exactly the fetched bytes.
pub open spec fn saved_files(
    jobs: Seq<(Seq<char>, Seq<char>)>,
    outcomes: Seq<Option<Seq<u8>>>,
) -> Seq<(Seq<char>, Seq<u8>)>
    decreases jobs.len(),
{
    if jobs.len() == 0 {
        Seq::empty()
    } else {
        let prev = saved_files(jobs.drop_last(), outcomes.drop_last());
        match outcomes.last() {
            Some(b) => prev.push((jobs.last().1, b)),
            None => prev,
        }
    }
}

/// The final non-empty segment of `p`, as a fresh string.
pub fn last_segment_of(p: &str) -> (r: Option<String>)
    ensures
        r is Some <==> last_segment(p@) is Some,
        r matches Some(s) ==> last_segment(p@) == Some(s@),
{
    let ghost pv = p@;
    let n = p.unicode_len();
    proof {
        assert(pv.take(n as int) =~= pv);
    }
    let mut j: usize = n;
    while j > 0 && p.get_char(j - 1) == '/'
        invariant
            j <= n,
            n == pv.len(),
            pv == p@,
            last_segment(pv) == last_segment(pv.take(j as int)),
        decreases j,
    {
        proof {
            assert(pv.take(j as int).last() == pv[j as int - 1]);
            assert(pv.take(j as int).drop_last() =~= pv.take(j as int - 1));
        }
        j -= 1;
    }
    if j == 0 {
        proof {
            assert(pv.take(0) =~= Seq::<char>::empty());
        }
        return None;
    }
    let ghost q = pv.take(j as int);
    let mut i: usize = j;
    while i > 0 && p.get_char(i - 1) != '/'
        invariant
            i <= j <= n,
            n == pv.len(),
            pv == p@,
            q == pv.take(j as int),
            forall|m: int| i <= m < j ==> pv[m] != '/',
        decreases i,
    {
        i -= 1;
    }
    let seg = p.substring_char(i, j).to_owned();
    proof {
        assert(q.last() == pv[j as int - 1]);
        assert(q.last() != '/');
        assert(forall|m: int| 0 <= m < j ==> q[m] == pv[m]);
        lemma_last_index_of(q, '/');
        if i == 0 {
            match last_index_of(q, '/') {
                Some(k) => {
                    assert(q[k] != '/');
                },
                None => {},
            }
            assert(last_segment(pv) == Some(q));
            assert(seg@ =~= q);
        } else {
            assert(pv[i as int - 1] == '/');
            match last_index_of(q, '/') {
                Some(k) => {
                    if k < i - 1 {
                        assert(q[i as int - 1] != '/');
                    }
                    if k > i - 1 {
                        assert(q[k] != '/');
                    }
                    assert(k == i - 1);
                    assert(last_segment(pv) == Some(q.subrange(i as int, j as int)));
                },
                None => {
                    assert(q[i as int - 1] != '/');
                },
            }
            assert(seg@ =~= q.subrange(i as int, j as int));
        }
    }
    Some(seg)
}

/// Plans the downloads for the loaded entries: each entry whose URL path yields
/// a file name becomes a job fetching that URL and saving under that name; the
/// entries whose path yields none are returned separately, to be skipped with a
/// warning rather than abort the batch.
pub fn plan_downloads(entries: &Vec<UrlEntry>) -> (r: (Vec<DownloadJob>, Vec<UrlEntry>))
    ensures
        r.0.deep_view() == planned_jobs(entries.deep_view()),
        r.1.deep_view() == unplanned_entries(entries.deep_view()),
{
    let ghost ev = entries.deep_view();
    let mut jobs: Vec<DownloadJob> = Vec::new();
    let mut skipped: Vec<UrlEntry> = Vec::new();
    let n = entries.len();
    assert(ev.len() == n);
    let mut i: usize = 0;
    while i < n
        invariant
            i <= n,
            n == ev.len(),
            ev == entries.deep_view(),
            forall|m: int| 0 <= m < entries@.len() ==> ev[m] == entries@[m].deep_view(),
            jobs.deep_view() == planned_jobs(ev.take(i as int)),
            skipped.deep_view() == unplanned_entries(ev.take(i as int)),
        decreases n - i,
    {
        let e = &entries[i];
        match last_segment_of(e.path.as_str()) {
            Some(f) => {
                jobs.push(DownloadJob { url: e.url.clone(), filename: f });
            },
            None => {
                skipped.push(UrlEntry { url: e.url.clone(), path: e.path.clone() });
            },
        }
        proof {
            assert(ev.take(i as int + 1).drop_last() =~= ev.take(i as int));
            assert(ev.take(i as int + 1).last() == ev[i as int]);
            assert(jobs.deep_view() =~= planned_jobs(ev.take(i as int + 1)));
            assert(skipped.deep_view() =~= unplanned_entries(ev.take(i as int + 1)));
        }
        i += 1;
    }
    proof {
        assert(ev.take(n as int) =~= ev);
    }
    (jobs, skipped)
}

/// One file to write after the fetches settled: its name and its bytes.
pub struct SavedFile {
    pub name: String,
    pub bytes: Vec<u8>,
}

impl DeepView for SavedFile {
    type V = (Seq<char>, Seq<u8>);

    open spec fn deep_view(&self) -> Self::V {
        (self.name@, self.bytes@)
    }
}

/// Settles a batch of fetches: every job whose fetch produced a body becomes a
/// file named by the job, holding exactly the fetched bytes; failed fetches are
/// dropped without disturbing the rest.
pub fn collect_downloads(jobs: &Vec<DownloadJob>, outcomes: Vec<Option<Vec<u8>>>) -> (r: Vec<
    SavedFile,
>)
    requires
        jobs@.len() == outcomes@.len(),
    ensures
        r.deep_view() == saved_files(jobs.deep_view(), outcomes.deep_view()),
{
    let ghost jv = jobs.deep_view();
    let ghost ov = outcomes.deep_view();
    let mut r: Vec<SavedFile> = Vec::new();
    let mut rest = outcomes;
    let n = jobs.len();
    assert(jv.len() == n && ov.len() == n);
    let mut i: usize = 0;
    while i < n
        invariant
            i <= n,
            n == jv.len() == ov.len(),
            jv == jobs.deep_view(),
            rest@.len() == n - i,
            forall|m: int| 0 <= m < rest@.len() ==> rest@[m].deep_view() == ov[i + m],
            forall|m: int| 0 <= m < jobs@.len() ==> jv[m] == jobs@[m].deep_view(),
            r.deep_view() == saved_files(jv.take(i as int), ov.take(i as int)),
        decreases n - i,
    {
        let outcome = rest.remove(0);
        proof {
            assert(outcome.deep_view() == ov[i as int]);
        }
        match outcome {
            Some(bytes) => {
                proof {
                    assert(bytes.deep_view() =~= bytes@);
                }
                r.push(SavedFile { name: jobs[i].filename.clone(), bytes });
            },
            None => {},
        }
        proof {
            assert(jv.take(i as int + 1).drop_last() =~= jv.take(i as int));
            assert(ov.take(i as int + 1).drop_last() =~= ov.take(i as int));
            assert(jv.take(i as int + 1).last() == jv[i as int]);
            assert(ov.take(i as int + 1).last() == ov[i as int]);
            assert(r.deep_view() =~= saved_files(jv.take(i as int + 1), ov.take(i as int + 1)));
        }
        i += 1;
    }
    proof {
        assert(jv.take(n as int) =~= jv);
        assert(ov.take(n as int) =~= ov);
    }
    r
}

/// How many fetches of a batch returned a body.
pub open spec fn success_count(outcomes: Seq<Option<Seq<u8>>>) -> int
    decreases outcomes.len(),
{
    if outcomes.len() == 0 {
        0
    } else {
        success_count(outcomes.drop_last()) + if outcomes.last() is Some {
            1int
        } else {
            0int
        }
    }
}

/// Exactly one file is saved per fetch that returned a body.
pub proof fn lemma_one_file_per_success(
    jobs: Seq<(Seq<char>, Seq<char>)>,
    outcomes: Seq<Option<Seq<u8>>>,
)
    requires
        jobs.len() == outcomes.len(),
    ensures
        saved_files(jobs, outcomes).len() == success_count(outcomes),
    decreases jobs.len(),
{
    if jobs.len() > 0 {
        lemma_one_file_per_success(jobs.drop_last(), outcomes.drop_last());
    }
}

/// A failing fetch is isolated: whatever the other outcomes are, every job
/// whose own fetch returned a body is saved, under its own name and with the
/// fetched bytes.
pub proof fn lemma_failure_isolated(
    jobs: Seq<(Seq<char>, Seq<char>)>,
    outcomes: Seq<Option<Seq<u8>>>,
    j: int,
    b: Seq<u8>,
)
    requires
        jobs.len() == outcomes.len(),
        0 <= j < jobs.len(),
        outcomes[j] == Some(b),
    ensures
        saved_files(jobs, outcomes).contains((jobs[j].1, b)),
    decreases jobs.len(),
{
    let cur = saved_files(jobs, outcomes);
    if j == jobs.len() - 1 {
        assert(cur.last() == (jobs[j].1, b));
    } else {
        lemma_failure_isolated(jobs.drop_last(), outcomes.drop_last(), j, b);
        let prev = saved_files(jobs.drop_last(), outcomes.drop_last());
        let k = choose|k: int| 0 <= k < prev.len() && prev[k] == (jobs[j].1, b);
        assert(cur[k] == (jobs[j].1, b));
    }
}

/// Every saved file comes from a fetched job: its name is that job's file name
/// and its bytes are exactly what that job's fetch returned.
pub proof fn lemma_saved_from_jobs(jobs: Seq<(Seq<char>, Seq<char>)>, outcomes: Seq<Option<Seq<u8>>>)
    requires
        jobs.len() == outcomes.len(),
    ensures
        forall|k: int|
            0 <= k < saved_files(jobs, outcomes).len() ==> exists|i: int|
                0 <= i < jobs.len() && #[trigger] saved_files(jobs, outcomes)[k].0 == jobs[i].1
                    && outcomes[i] == Some(saved_files(jobs, outcomes)[k].1),
    decreases jobs.len(),
{
    if jobs.len() > 0 {
        lemma_saved_from_jobs(jobs.drop_last(), outcomes.drop_last());
        let prev = saved_files(jobs.drop_last(), outcomes.drop_last());
        let cur = saved_files(jobs, outcomes);
        assert forall|k: int| 0 <= k < cur.len() implies exists|i: int|
            0 <= i < jobs.len() && #[trigger] cur[k].0 == jobs[i].1 && outcomes[i] == Some(
                cur[k].1,
            ) by {
            if k < prev.len() {
                assert(cur[k] == prev[k]);
                let i = choose|i: int|
                    0 <= i < jobs.len() - 1 && #[trigger] prev[k].0 == jobs.drop_last()[i].1
                        && outcomes.drop_last()[i] == Some(prev[k].1);
                assert(cur[k].0 == jobs[i].1 && outcomes[i] == Some(cur[k].1));
            } else {
                let i = jobs.len() - 1;
                assert(cur[k].0 == jobs[i].1 && outcomes[i] == Some(cur[k].1));
            }
        }
    }
}

/// With pairwise distinct job file names, no saved file overwrites another:
/// the saved names are pairwise distinct, so the download directory holds one
/// file per successful fetch.
pub proof fn lemma_distinct_names_saved(
    jobs: Seq<(Seq<char>, Seq<char>)>,
    outcomes: Seq<Option<Seq<u8>>>,
)
    requires
        jobs.len() == outcomes.len(),
        forall|i: int, j: int| 0 <= i < j < jobs.len() ==> jobs[i].1 != jobs[j].1,
    ensures
        forall|i: int, j: int|
            0 <= i < j < saved_files(jobs, outcomes).len() ==> saved_files(jobs, outcomes)[i].0
                != saved_files(jobs, outcomes)[j].0,
    decreases jobs.len(),
{
    if jobs.len() > 0 {
        lemma_distinct_names_saved(jobs.drop_last(), outcomes.drop_last());
        lemma_saved_from_jobs(jobs.drop_last(), outcomes.drop_last());
        let prev = saved_files(jobs.drop_last(), outcomes.drop_last());
        let cur = saved_files(jobs, outcomes);
        assert forall|i: int, j: int|
            0 <= i < j < cur.len() implies cur[i].0 != cur[j].0 by {
            if j == prev.len() {
                let m = choose|m: int|
                    0 <= m < jobs.len() - 1 && #[trigger] prev[i].0 == jobs.drop_last()[m].1
                        && outcomes.drop_last()[m] == Some(prev[i].1);
                assert(cur[i].0 == jobs[m].1);
                assert(cur[j].0 == jobs[jobs.len() - 1].1);
            } else {
                assert(cur[i] == prev[i] && cur[j] == prev[j]);
            }
        }
    }
}

} // verus!
