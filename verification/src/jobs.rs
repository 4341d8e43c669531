//! The table of background jobs and the lines that report on them.

use vstd::prelude::*;
use crate::text::{chars_of, digits, digits_of, string_of_range};

verus! {

/// Whether a job's process is still running.
#[derive(PartialEq, Eq, Structural, Clone, Copy, Debug)]
pub enum JobState {
    Running,
    Done,
}

/// A background job; `child` is the handle of its process.
pub struct Job<C> {
    pub id: usize,
    pub name: String,
    pub pid: u32,
    pub origin: String,
    pub state: JobState,
    pub child: C,
}

/// The name of a state as the job reports show it.
pub open spec fn state_name(s: JobState) -> Seq<char> {
    match s {
        JobState::Done => seq!['D', 'o', 'n', 'e'],
        JobState::Running => seq!['R', 'u', 'n', 'n', 'i', 'n', 'g'],
    }
}

impl JobState {
    pub fn as_str(&self) -> (r: &'static str)
        ensures
            r@ == state_name(*self),
    {
        proof {
            reveal_strlit("Done");
            reveal_strlit("Running");
            assert("Done"@ =~= state_name(JobState::Done));
            assert("Running"@ =~= state_name(JobState::Running));
        }
        match self {
            JobState::Done => "Done",
            JobState::Running => "Running",
        }
    }
}

/// A finished job's text loses its last character (the `&` that sent it to
/// the background); a running job's text is shown whole.
pub open spec fn shown_origin<C>(j: Job<C>) -> Seq<char> {
    match j.state {
        JobState::Done => j.origin@.drop_last(),
        JobState::Running => j.origin@,
    }
}

/// A finished job's text can lose its last character: it is not empty and
/// that character is one byte long.
pub open spec fn origin_trimmable<C>(j: Job<C>) -> bool {
    j.origin@.len() > 0 && (j.origin@.last() as u32) < 128
}

impl<C> Job<C> {
    /// The job's text as the reports show it, see `shown_origin`.
    pub fn orig(&self) -> (r: String)
        requires
            self.state == JobState::Done ==> origin_trimmable(*self),
        ensures
            r@ == shown_origin(*self),
    {
        let cs = chars_of(self.origin.as_str());
        match self.state {
            JobState::Done => string_of_range(&cs, 0, cs.len() - 1),
            JobState::Running => string_of_range(&cs, 0, cs.len()),
        }
    }
}

/// The marker of the job at `i` among `len`: `+` for the last one, `-` for
/// the one before it, a space for the others.
pub open spec fn marker(i: int, len: int) -> Seq<char> {
    if i == len - 1 {
        seq!['+']
    } else if i == len - 2 {
        seq!['-']
    } else {
        seq![' ']
    }
}

/// The job markers can be computed: there is a job, and unless `i` is the
/// last one there are at least two.
pub open spec fn marker_defined(i: int, len: int) -> bool {
    len >= 1 && (i != len - 1 ==> len >= 2)
}

pub fn job_marker(i: usize, len: usize) -> (r: &'static str)
    requires
        marker_defined(i as int, len as int),
    ensures
        r@ == marker(i as int, len as int),
{
    proof {
        reveal_strlit("+");
        reveal_strlit("-");
        reveal_strlit(" ");
        assert("+"@ =~= seq!['+']);
        assert("-"@ =~= seq!['-']);
        assert(" "@ =~= seq![' ']);
    }
    if i == len - 1 {
        "+"
    } else if i == len - 2 {
        "-"
    } else {
        " "
    }
}

/// `n` spaces.
pub open spec fn spaces(n: nat) -> Seq<char> {
    Seq::new(n, |i: int| ' ')
}

/// `s` padded with spaces on the right to `width` characters, as the format
/// `{:<width}` writes it.
pub open spec fn pad_right(s: Seq<char>, width: nat) -> Seq<char> {
    if s.len() >= width {
        s
    } else {
        s + spaces((width - s.len()) as nat)
    }
}

/// A report line, as `"[{id}]{marker}  {state:<24}{text}"` writes it.
pub open spec fn job_line(id: nat, mark: Seq<char>, state: Seq<char>, text: Seq<char>) -> Seq<char> {
    seq!['['] + digits(id) + seq![']'] + mark + seq![' ', ' '] + pad_right(state, 24) + text
}

/// The report line of a job.
fn format_job_line(id: usize, mark: &str, state: &str, text: &str) -> (r: String)
    ensures
        r@ == job_line(id as nat, mark@, state@, text@),
{
    let mut s = String::new();
    s.push('[');
    let d = digits_of(id as u64);
    s.append(d.as_str());
    s.push(']');
    s.append(mark);
    s.push(' ');
    s.push(' ');
    let ghost before = s@;
    s.append(state);
    let n = state.unicode_len();
    let mut k: usize = n;
    while k < 24
        invariant
            n == state@.len(),
            n <= k <= 24 || (k == n && n > 24),
            s@ == before + state@ + spaces((k - n) as nat),
        decreases 24 - k,
    {
        s.push(' ');
        assert(spaces((k + 1 - n) as nat) =~= spaces((k - n) as nat).push(' '));
        k = k + 1;
    }
    assert(state@ + spaces((k - n) as nat) =~= pad_right(state@, 24));
    s.append(text);
    assert(s@ =~= job_line(id as nat, mark@, state@, text@));
    s
}

/// The jobs after polling: `finished[i]` says whether the process of job
/// `i` has exited, which makes the job done.
pub open spec fn polled<C>(jobs: Seq<Job<C>>, finished: Seq<bool>) -> Seq<Job<C>> {
    Seq::new(
        jobs.len(),
        |i: int|
            if i < finished.len() && finished[i] {
                Job { state: JobState::Done, ..jobs[i] }
            } else {
                jobs[i]
            },
    )
}

/// The report lines of the first `k` jobs of `ps`: of all of them when
/// `all`, otherwise of the done ones only; each shows the job's position
/// marker among all `ps`.
pub open spec fn report<C>(ps: Seq<Job<C>>, k: int, all: bool) -> Seq<Seq<char>>
    decreases k,
{
    if k <= 0 {
        Seq::empty()
    } else {
        let prev = report(ps, k - 1, all);
        let j = ps[k - 1];
        if all || j.state == JobState::Done {
            prev.push(
                job_line(j.id as nat, marker(k - 1, ps.len() as int), state_name(j.state), shown_origin(j)),
            )
        } else {
            prev
        }
    }
}

/// The jobs among the first `k` of `ps` that are still running, in order.
pub open spec fn running<C>(ps: Seq<Job<C>>, k: int) -> Seq<Job<C>>
    decreases k,
{
    if k <= 0 {
        Seq::empty()
    } else {
        let prev = running(ps, k - 1);
        if ps[k - 1].state == JobState::Running {
            prev.push(ps[k - 1])
        } else {
            prev
        }
    }
}

/// The line reported for the job at `i` among `ps`.
pub open spec fn line_of<C>(ps: Seq<Job<C>>, i: int) -> Seq<char> {
    job_line(ps[i].id as nat, marker(i, ps.len() as int), state_name(ps[i].state), shown_origin(ps[i]))
}

proof fn lemma_report<C>(ps: Seq<Job<C>>, k: int, all: bool)
    requires
        0 <= k <= ps.len(),
    ensures
        forall|i: int|
            0 <= i < k && (all || (#[trigger] ps[i]).state == JobState::Done) ==> report(ps, k, all).contains(
                line_of(ps, i),
            ),
        forall|x: Seq<char>|
            #[trigger] report(ps, k, all).contains(x) ==> exists|i: int|
                0 <= i < k && (all || ps[i].state == JobState::Done) && x == line_of(ps, i),
        all ==> report(ps, k, all).len() == k,
    decreases k,
{
    if k > 0 {
        lemma_report(ps, k - 1, all);
        let prev = report(ps, k - 1, all);
        let cur = report(ps, k, all);
        assert forall|a: int| 0 <= a < prev.len() implies #[trigger] cur.contains(prev[a]) by {
            if all || ps[k - 1].state == JobState::Done {
                assert(cur[a] == prev[a]);
            }
        }
        assert forall|i: int|
            0 <= i < k && (all || (#[trigger] ps[i]).state == JobState::Done) implies cur.contains(line_of(ps, i)) by {
            if i < k - 1 {
                let a = choose|a: int| 0 <= a < prev.len() && prev[a] == line_of(ps, i);
                assert(cur.contains(prev[a]));
            } else {
                assert(cur[cur.len() - 1] == line_of(ps, i));
            }
        }
        assert forall|x: Seq<char>| #[trigger] cur.contains(x) implies exists|i: int|
            0 <= i < k && (all || ps[i].state == JobState::Done) && x == line_of(ps, i) by {
            let a = choose|a: int| 0 <= a < cur.len() && cur[a] == x;
            if a < prev.len() {
                assert(cur[a] == prev[a]);
                assert(prev.contains(x));
            } else {
                assert(x == line_of(ps, k - 1));
            }
        }
    }
}

/// Reaping reports a line for every job that is done and for nothing else;
/// listing (`jobs`) reports a line for every job, one per job.
pub proof fn law_report_lines<C>(jobs: Seq<Job<C>>, finished: Seq<bool>, all: bool)
    ensures
        ({
            let ps = polled(jobs, finished);
            let lines = report(ps, ps.len() as int, all);
            &&& forall|i: int|
                0 <= i < ps.len() && (all || (#[trigger] ps[i]).state == JobState::Done) ==> lines.contains(
                    line_of(ps, i),
                )
            &&& forall|x: Seq<char>|
                #[trigger] lines.contains(x) ==> exists|i: int|
                    0 <= i < ps.len() && (all || ps[i].state == JobState::Done) && x == line_of(ps, i)
            &&& all ==> lines.len() == jobs.len()
        }),
{
    let ps = polled(jobs, finished);
    lemma_report(ps, ps.len() as int, all);
}

/// Every job that is done after polling can be reported.
pub open spec fn reportable<C>(jobs: Seq<Job<C>>, finished: Seq<bool>) -> bool {
    forall|i: int|
        0 <= i < jobs.len() && #[trigger] polled(jobs, finished)[i].state == JobState::Done
            ==> origin_trimmable(polled(jobs, finished)[i])
}

/// Polls the jobs, reports the done ones and drops them from the table.
fn reap_or_list<C>(jobs: &mut Vec<Job<C>>, finished: &Vec<bool>, all: bool) -> (r: Vec<String>)
    requires
        reportable(old(jobs)@, finished@),
    ensures
        ({
            let ps = polled(old(jobs)@, finished@);
            &&& r@.map_values(|s: String| s@) == report(ps, ps.len() as int, all)
            &&& final(jobs)@ == running(ps, ps.len() as int)
        }),
{
    let ghost ps = polled(jobs@, finished@);
    let n = jobs.len();
    let mut rest: Vec<Job<C>> = Vec::new();
    std::mem::swap(&mut rest, jobs);
    let mut lines: Vec<String> = Vec::new();
    let mut i: usize = 0;
    assert(rest@ =~= old(jobs)@.skip(0));
    assert(lines@.map_values(|s: String| s@) =~= report(ps, 0, all));
    while i < n
        invariant
            n == ps.len() == old(jobs)@.len(),
            ps == polled(old(jobs)@, finished@),
            reportable(old(jobs)@, finished@),
            i <= n,
            rest@ == old(jobs)@.skip(i as int),
            lines@.map_values(|s: String| s@) == report(ps, i as int, all),
            jobs@ == running(ps, i as int),
        decreases n - i,
    {
        let ghost before = rest@;
        let mut j = rest.remove(0);
        assert(rest@ =~= old(jobs)@.skip(i + 1));
        assert(j == old(jobs)@[i as int]);
        if i < finished.len() && finished[i] {
            j.state = JobState::Done;
        }
        assert(j == ps[i as int]);
        if all || j.state == JobState::Done {
            proof {
                if j.state == JobState::Done {
                    assert(origin_trimmable(ps[i as int]));
                }
            }
            let text = j.orig();
            let line = format_job_line(j.id, job_marker(i, n), j.state.as_str(), text.as_str());
            let ghost old_lines = lines@.map_values(|s: String| s@);
            lines.push(line);
            assert(lines@.map_values(|s: String| s@) =~= old_lines.push(line@));
        }
        if j.state == JobState::Running {
            jobs.push(j);
        }
        i = i + 1;
    }
    lines
}

/// Polls the jobs (`finished[i]`: the process of job `i` has exited),
/// reports the jobs that are done and drops them from the table.
pub fn reap_jobs<C>(jobs: &mut Vec<Job<C>>, finished: &Vec<bool>) -> (r: Vec<String>)
    requires
        reportable(old(jobs)@, finished@),
    ensures
        ({
            let ps = polled(old(jobs)@, finished@);
            &&& r@.map_values(|s: String| s@) == report(ps, ps.len() as int, false)
            &&& final(jobs)@ == running(ps, ps.len() as int)
        }),
{
    reap_or_list(jobs, finished, false)
}

/// The `jobs` builtin: polls the jobs, reports every one of them and drops
/// those that are done.
pub fn jobs_cmd<C>(jobs: &mut Vec<Job<C>>, finished: &Vec<bool>) -> (r: Vec<String>)
    requires
        reportable(old(jobs)@, finished@),
    ensures
        ({
            let ps = polled(old(jobs)@, finished@);
            &&& r@.map_values(|s: String| s@) == report(ps, ps.len() as int, true)
            &&& final(jobs)@ == running(ps, ps.len() as int)
        }),
{
    reap_or_list(jobs, finished, true)
}

/// The largest job number in use, or 0 for an empty table.
pub open spec fn max_id<C>(jobs: Seq<Job<C>>) -> nat
    decreases jobs.len(),
{
    if jobs.len() == 0 {
        0
    } else {
        let m = max_id(jobs.drop_last());
        if jobs.last().id > m { jobs.last().id as nat } else { m }
    }
}

/// The line that announces a new job: `"[{id}] {pid}"`.
pub open spec fn announce_line(id: nat, pid: nat) -> Seq<char> {
    seq!['['] + digits(id) + seq![']', ' '] + digits(pid)
}

/// Adds a running job numbered one above the largest number in use and
/// returns the line that announces it.
pub fn add_job<C>(jobs: &mut Vec<Job<C>>, child: C, pid: u32, name: String, origin: String) -> (r:
    String)
    requires
        max_id(old(jobs)@) < usize::MAX,
    ensures
        final(jobs)@ == old(jobs)@.push(
            Job { id: (max_id(old(jobs)@) + 1) as usize, name, pid, origin, state: JobState::Running, child },
        ),
        r@ == announce_line(max_id(old(jobs)@) + 1, pid as nat),
{
    let mut m: usize = 0;
    let mut i: usize = 0;
    assert(jobs@.take(0) =~= Seq::<Job<C>>::empty());
    while i < jobs.len()
        invariant
            i <= jobs@.len(),
            m == max_id(jobs@.take(i as int)),
        decreases jobs@.len() - i,
    {
        assert(jobs@.take(i + 1).drop_last() =~= jobs@.take(i as int));
        if jobs[i].id > m {
            m = jobs[i].id;
        }
        i = i + 1;
    }
    assert(jobs@.take(jobs@.len() as int) =~= jobs@);
    let id = m + 1;
    let mut line = String::new();
    line.push('[');
    let d = digits_of(id as u64);
    line.append(d.as_str());
    line.push(']');
    line.push(' ');
    let p = digits_of(pid as u64);
    line.append(p.as_str());
    assert(line@ =~= announce_line(id as nat, pid as nat));
    jobs.push(Job { id, name, pid, origin, state: JobState::Running, child });
    line
}

/// Job numbers are all different.
pub open spec fn ids_distinct<C>(jobs: Seq<Job<C>>) -> bool {
    forall|a: int, b: int| 0 <= a < b < jobs.len() ==> #[trigger] jobs[a].id != #[trigger] jobs[b].id
}

proof fn lemma_running<C>(ps: Seq<Job<C>>, k: int)
    requires
        0 <= k <= ps.len(),
    ensures
        forall|a: int| 0 <= a < running(ps, k).len() ==> (#[trigger] running(ps, k)[a]).state == JobState::Running,
        forall|a: int, b: int|
            0 <= a < b < running(ps, k).len() ==> exists|i: int, j: int|
                0 <= i < j < k && #[trigger] running(ps, k)[a] == ps[i] && #[trigger] running(ps, k)[b] == ps[j],
        forall|a: int|
            0 <= a < running(ps, k).len() ==> exists|i: int| 0 <= i < k && #[trigger] running(ps, k)[a] == ps[i],
        forall|i: int|
            0 <= i < k && (#[trigger] ps[i]).state == JobState::Running ==> running(ps, k).contains(ps[i]),
    decreases k,
{
    if k > 0 {
        lemma_running(ps, k - 1);
        let prev = running(ps, k - 1);
        assert forall|i: int|
            0 <= i < k && (#[trigger] ps[i]).state == JobState::Running implies running(ps, k).contains(ps[i]) by {
            if i < k - 1 {
                let a = choose|a: int| 0 <= a < prev.len() && prev[a] == ps[i];
                if ps[k - 1].state == JobState::Running {
                    assert(prev.push(ps[k - 1])[a] == ps[i]);
                }
            } else {
                assert(running(ps, k)[running(ps, k).len() - 1] == ps[i]);
            }
        }
        if ps[k - 1].state == JobState::Running {
            let r = prev.push(ps[k - 1]);
            assert forall|a: int| 0 <= a < r.len() implies exists|i: int| 0 <= i < k && #[trigger] r[a] == ps[i] by {
                if a < prev.len() {
                    assert(r[a] == prev[a]);
                } else {
                    assert(r[a] == ps[k - 1]);
                }
            }
            assert forall|a: int, b: int|
                0 <= a < b < r.len() implies exists|i: int, j: int|
                    0 <= i < j < k && #[trigger] r[a] == ps[i] && #[trigger] r[b] == ps[j] by {
                assert(r[a] == prev[a]);
                if b < prev.len() {
                    assert(r[b] == prev[b]);
                } else {
                    let i = choose|i: int| 0 <= i < k - 1 && prev[a] == ps[i];
                    assert(r[b] == ps[k - 1]);
                }
            }
            assert forall|a: int| 0 <= a < r.len() implies (#[trigger] r[a]).state == JobState::Running by {
                if a < prev.len() {
                    assert(r[a] == prev[a]);
                }
            }
        }
    }
}

/// After jobs are reaped (or listed) every job left in the table is
/// running, each was in the table before under the same number, and the
/// jobs keep their order; no job that is still running is dropped.
pub proof fn law_reap_keeps_running<C>(jobs: Seq<Job<C>>, finished: Seq<bool>)
    ensures
        ({
            let ps = polled(jobs, finished);
            let left = running(ps, ps.len() as int);
            &&& forall|i: int|
                0 <= i < jobs.len() && (#[trigger] jobs[i]).state == JobState::Running && !(i < finished.len()
                    && finished[i]) ==> left.contains(jobs[i])
            &&& forall|a: int| 0 <= a < left.len() ==> (#[trigger] left[a]).state == JobState::Running
            &&& forall|a: int| 0 <= a < left.len() ==> exists|i: int| 0 <= i < jobs.len() && (#[trigger] left[a]).id == jobs[i].id && left[a].origin == jobs[i].origin
            &&& forall|a: int, b: int| 0 <= a < b < left.len() ==> exists|i: int, j: int| 0 <= i < j < jobs.len() && (#[trigger] left[a]).id == jobs[i].id && (#[trigger] left[b]).id == jobs[j].id
        }),
{
    let ps = polled(jobs, finished);
    lemma_running(ps, ps.len() as int);
    let left = running(ps, ps.len() as int);
    assert forall|i: int|
        0 <= i < jobs.len() && (#[trigger] jobs[i]).state == JobState::Running && !(i < finished.len()
            && finished[i]) implies left.contains(jobs[i]) by {
        assert(ps[i] == jobs[i]);
    }
    assert forall|a: int| 0 <= a < left.len() implies exists|i: int| 0 <= i < jobs.len() && (#[trigger] left[a]).id == jobs[i].id && left[a].origin == jobs[i].origin by {
        let i = choose|i: int| 0 <= i < ps.len() && left[a] == ps[i];
        assert(ps[i].id == jobs[i].id);
    }
    assert forall|a: int, b: int| 0 <= a < b < left.len() implies exists|i: int, j: int| 0 <= i < j < jobs.len() && (#[trigger] left[a]).id == jobs[i].id && (#[trigger] left[b]).id == jobs[j].id by {
        let (i, j) = choose|i: int, j: int| 0 <= i < j < ps.len() && left[a] == ps[i] && left[b] == ps[j];
        assert(ps[i].id == jobs[i].id);
        assert(ps[j].id == jobs[j].id);
    }
}

proof fn lemma_max_id<C>(jobs: Seq<Job<C>>)
    ensures
        forall|i: int| 0 <= i < jobs.len() ==> (#[trigger] jobs[i]).id <= max_id(jobs),
        jobs.len() > 0 ==> exists|i: int| 0 <= i < jobs.len() && (#[trigger] jobs[i]).id == max_id(jobs),
    decreases jobs.len(),
{
    if jobs.len() > 0 {
        lemma_max_id(jobs.drop_last());
        let init = jobs.drop_last();
        if jobs.last().id <= max_id(init) && init.len() > 0 {
            let i = choose|i: int| 0 <= i < init.len() && init[i].id == max_id(init);
            assert(jobs[i] == init[i]);
        } else {
            assert(jobs[jobs.len() - 1].id == max_id(jobs));
        }
        assert forall|i: int| 0 <= i < jobs.len() implies (#[trigger] jobs[i]).id <= max_id(jobs) by {
            if i < jobs.len() - 1 {
                assert(jobs[i] == jobs.drop_last()[i]);
            }
        }
    }
}

/// A new job gets a number that no job in the table has, so job numbers
/// stay distinct as jobs are added and reaped.
pub proof fn law_job_ids_distinct<C>(jobs: Seq<Job<C>>, finished: Seq<bool>, new_job: Job<C>)
    requires
        ids_distinct(jobs),
        new_job.id == max_id(jobs) + 1,
    ensures
        forall|i: int| 0 <= i < jobs.len() ==> (#[trigger] jobs[i]).id < new_job.id,
        jobs.len() == 0 ==> new_job.id == 1,
        jobs.len() > 0 ==> exists|i: int| 0 <= i < jobs.len() && (#[trigger] jobs[i]).id + 1 == new_job.id,
        ids_distinct(jobs.push(new_job)),
        ids_distinct(running(polled(jobs, finished), jobs.len() as int)),
{
    lemma_max_id(jobs);
    let js = jobs.push(new_job);
    assert forall|a: int, b: int| 0 <= a < b < js.len() implies #[trigger] js[a].id != #[trigger] js[b].id by {
        assert(js[a] == jobs[a]);
        if b < jobs.len() {
            assert(js[b] == jobs[b]);
        }
    }
    law_reap_keeps_running(jobs, finished);
    let left = running(polled(jobs, finished), jobs.len() as int);
    assert forall|a: int, b: int| 0 <= a < b < left.len() implies #[trigger] left[a].id != #[trigger] left[b].id by {
        let (i, j) = choose|i: int, j: int| 0 <= i < j < jobs.len() && left[a].id == jobs[i].id && left[b].id == jobs[j].id;
        assert(jobs[i].id != jobs[j].id);
    }
}

} // verus!
