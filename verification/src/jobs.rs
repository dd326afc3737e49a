//! Background job bookkeeping: the current and previous job markers, job
//! numbers, and the lines that report jobs.

use vstd::prelude::*;
use crate::text::{decimal, decimal_string, join, join_strings, owned, push_char, trim, trimmed, views};

verus! {

/// `ids[i]` is a largest element of `ids`.
pub open spec fn is_top(ids: Seq<u32>, i: int) -> bool {
    0 <= i < ids.len() && forall|k: int| 0 <= k < ids.len() ==> ids[k] <= ids[i]
}

/// `ids[i]` is a largest element and `ids[j]`, another position, is the
/// largest of the rest.
pub open spec fn is_second(ids: Seq<u32>, i: int, j: int) -> bool {
    is_top(ids, i) && 0 <= j < ids.len() && j != i && forall|k: int|
        0 <= k < ids.len() && k != i ==> ids[k] <= ids[j]
}

/// The current job (the largest number) and the previous one (the largest
/// after one occurrence of the current is taken out), as sorting the numbers
/// and taking the last two gives.
pub open spec fn markers_spec(ids: Seq<u32>) -> (Option<u32>, Option<u32>) {
    (
        if ids.len() == 0 {
            None
        } else {
            Some(ids[choose|i: int| is_top(ids, i)])
        },
        if ids.len() < 2 {
            None
        } else {
            Some(ids[(choose|p: (int, int)| is_second(ids, p.0, p.1)).1])
        },
    )
}

proof fn lemma_second_value_unique(ids: Seq<u32>, i: int, j: int, i2: int, j2: int)
    requires
        is_second(ids, i, j),
        is_second(ids, i2, j2),
    ensures
        ids[j] == ids[j2],
{
    if i != i2 {
        assert(ids[i2] <= ids[j]);
        assert(ids[i] <= ids[j2]);
    } else {
        assert(ids[j2] <= ids[j]);
        assert(ids[j] <= ids[j2]);
    }
}

/// The current and previous job numbers among `ids`.
pub fn get_markers(ids: &[u32]) -> (r: (Option<u32>, Option<u32>))
    ensures
        r == markers_spec(ids@),
        r.0 matches Some(m) ==> exists|i: int| 0 <= i < ids@.len() && ids@[i] == m,
{
    let n = ids.len();
    if n == 0 {
        return (None, None);
    }
    let mut top: usize = 0;
    let mut second: usize = 0;
    let mut k: usize = 1;
    while k < n
        invariant
            n == ids@.len(),
            1 <= k <= n,
            is_top(ids@.take(k as int), top as int),
            k >= 2 ==> is_second(ids@.take(k as int), top as int, second as int),
        decreases n - k,
    {
        let ghost t = ids@.take(k as int);
        let ghost t1 = ids@.take(k + 1);
        assert(forall|m: int| 0 <= m < k ==> t1[m] == t[m]);
        if ids[k] > ids[top] {
            second = top;
            top = k;
        } else if k == 1 || ids[k] > ids[second] {
            second = k;
        }
        k += 1;
    }
    assert(ids@.take(n as int) == ids@);
    let current = ids[top];
    if n < 2 {
        proof {
            let c = choose|i: int| is_top(ids@, i);
            assert(is_top(ids@, top as int));
            assert(ids@[c] <= ids@[top as int] && ids@[top as int] <= ids@[c]);
        }
        return (Some(current), None);
    }
    proof {
        let c = choose|i: int| is_top(ids@, i);
        assert(is_top(ids@, top as int));
        assert(ids@[c] <= ids@[top as int] && ids@[top as int] <= ids@[c]);
        assert(is_second(ids@, top as int, second as int));
        assert(is_second(ids@, (top as int, second as int).0, (top as int, second as int).1));
        let p = choose|p: (int, int)| is_second(ids@, p.0, p.1);
        lemma_second_value_unique(ids@, top as int, second as int, p.0, p.1);
    }
    (Some(current), Some(ids[second]))
}

/// The marker of job `id`: `+` for the current job, `-` for the previous one,
/// a space for the others.
pub open spec fn marker_spec(ids: Seq<u32>, id: u32) -> char {
    if markers_spec(ids).0 == Some(id) {
        '+'
    } else if markers_spec(ids).1 == Some(id) {
        '-'
    } else {
        ' '
    }
}

/// The marker of job `id` among the jobs numbered `ids`.
pub fn job_marker(ids: &[u32], id: u32) -> (c: char)
    ensures
        c == marker_spec(ids@, id),
{
    let (current, previous) = get_markers(ids);
    if current == Some(id) {
        '+'
    } else if previous == Some(id) {
        '-'
    } else {
        ' '
    }
}

/// The number for a new job: one more than the largest in use, or 1.
pub open spec fn next_job_id_spec(ids: Seq<u32>) -> int {
    match markers_spec(ids).0 {
        Some(m) => m + 1,
        None => 1,
    }
}

/// The number for a new background job. Numbers must stay below the largest
/// `u32`, so that the next one fits.
pub fn next_job_id(ids: &[u32]) -> (r: u32)
    requires
        forall|k: int| 0 <= k < ids@.len() ==> ids@[k] < u32::MAX,
    ensures
        r == next_job_id_spec(ids@),
{
    let (current, _) = get_markers(ids);
    match current {
        Some(m) => {
            proof {
                let i = choose|i: int| 0 <= i < ids@.len() && ids@[i] == m;
                assert(ids@[i] < u32::MAX);
            }
            m + 1
        },
        None => 1,
    }
}

/// A new job number is larger than every number in use, so no two jobs
/// share one.
pub proof fn lemma_next_job_id_fresh(ids: Seq<u32>)
    ensures
        forall|k: int| 0 <= k < ids.len() ==> ids[k] < next_job_id_spec(ids),
{
    if ids.len() > 0 {
        lemma_top_exists(ids);
        let i = choose|i: int| is_top(ids, i);
        assert(is_top(ids, i));
    }
}

proof fn lemma_top_exists(ids: Seq<u32>)
    requires
        ids.len() > 0,
    ensures
        exists|i: int| is_top(ids, i),
    decreases ids.len(),
{
    if ids.len() == 1 {
        assert(is_top(ids, 0));
    } else {
        let t = ids.drop_last();
        lemma_top_exists(t);
        let i = choose|i: int| is_top(t, i);
        assert(forall|k: int| 0 <= k < t.len() ==> t[k] == ids[k] && t[k] <= t[i]);
        if ids.last() > ids[i] {
            assert(is_top(ids, ids.len() - 1));
        } else {
            assert(is_top(ids, i));
        }
    }
}

/// The current job has the largest number, and the previous job is not
/// after it.
pub proof fn lemma_markers_order(ids: Seq<u32>)
    ensures
        markers_spec(ids).0 matches Some(c) ==> forall|k: int| 0 <= k < ids.len() ==> ids[k] <= c,
        markers_spec(ids).1 matches Some(p) ==> markers_spec(ids).0 matches Some(c) && p <= c,
{
    if ids.len() > 0 {
        lemma_top_exists(ids);
        let i = choose|i: int| is_top(ids, i);
        assert(is_top(ids, i));
        if ids.len() >= 2 {
            lemma_second_exists(ids, i);
            let p = choose|p: (int, int)| is_second(ids, p.0, p.1);
            assert(is_second(ids, p.0, p.1));
        }
    }
}

proof fn lemma_second_exists(ids: Seq<u32>, i: int)
    requires
        ids.len() >= 2,
        is_top(ids, i),
    ensures
        exists|p: (int, int)| is_second(ids, p.0, p.1),
{
    let others = ids.remove(i);
    lemma_top_exists(others);
    let j0 = choose|j: int| is_top(others, j);
    let j = if j0 < i { j0 } else { j0 + 1 };
    assert forall|k: int| 0 <= k < ids.len() && k != i implies ids[k] <= ids[j] by {
        let kk = if k < i { k } else { k - 1 };
        assert(others[kk] == ids[k]);
        assert(others[j0] == ids[j]);
    }
    assert(is_second(ids, (i, j).0, (i, j).1));
}

/// The marker of a job in the list: `+` exactly when no job has a larger
/// number; `-` exactly when some job has a larger number and, leaving out
/// any one job with the largest number, none of the others has a larger
/// number than it; a space otherwise.
pub proof fn lemma_marker_meaning(ids: Seq<u32>, i: int)
    requires
        0 <= i < ids.len(),
    ensures
        marker_spec(ids, ids[i]) == '+' <==> (forall|k: int| 0 <= k < ids.len() ==> ids[k] <= ids[i]),
        marker_spec(ids, ids[i]) == '-' <==> (!(forall|k: int| 0 <= k < ids.len() ==> ids[k] <= ids[i])
            && forall|t: int, k: int| #![trigger ids[t], ids[k]]
            0 <= t < ids.len() && 0 <= k < ids.len() && k != t && (forall|m: int|
                0 <= m < ids.len() ==> ids[m] <= ids[t]) ==> ids[k] <= ids[i]),
        marker_spec(ids, ids[i]) == '+' || marker_spec(ids, ids[i]) == '-' || marker_spec(ids, ids[i]) == ' ',
{
    let id = ids[i];
    lemma_top_exists(ids);
    let c = choose|c: int| is_top(ids, c);
    assert(is_top(ids, c));
    assert(ids[i] <= ids[c]);
    let all_le = forall|k: int| 0 <= k < ids.len() ==> ids[k] <= id;
    if all_le {
        assert(ids[c] <= id);
    } else {
        let w = choose|k: int| 0 <= k < ids.len() && !(ids[k] <= id);
        assert(ids[c] >= ids[w]);
        assert(ids[c] != id);
        assert(c != i);
        lemma_second_exists(ids, c);
        let p = choose|p: (int, int)| is_second(ids, p.0, p.1);
        assert(is_second(ids, p.0, p.1));
        let t = p.0;
        let j = p.1;
        assert(ids[t] == ids[c]) by {
            assert(ids[t] <= ids[c]);
            assert(ids[c] <= ids[t]);
        }
        let cond = forall|t2: int, k: int| #![trigger ids[t2], ids[k]]
            0 <= t2 < ids.len() && 0 <= k < ids.len() && k != t2 && (forall|m: int|
                0 <= m < ids.len() ==> ids[m] <= ids[t2]) ==> ids[k] <= ids[i];
        if ids[j] == id {
            assert forall|t2: int, k: int| #![trigger ids[t2], ids[k]]
                0 <= t2 < ids.len() && 0 <= k < ids.len() && k != t2 && (forall|m: int|
                    0 <= m < ids.len() ==> ids[m] <= ids[t2]) implies ids[k] <= ids[i] by {
                assert(ids[t2] >= ids[t]);
                if t2 != t {
                    assert(ids[t2] <= ids[j]);
                    if k == t {
                        assert(ids[t] <= ids[t2]);
                    }
                }
            }
        } else {
            assert(i != t);
            assert(ids[i] <= ids[j]);
            if cond {
                assert(ids[j] <= ids[i]);
            }
        }
    }
}

/// The line that `jobs` prints for a running or a finished job starts with
/// the job's tag, `[N]` and its marker in the whole list: the same tag
/// whatever the poll found.
pub proof fn lemma_jobs_line_tag(jobs: Seq<JobInfo>, i: int, poll: JobPoll)
    requires
        0 <= i < jobs.len(),
        poll != JobPoll::Failed,
    ensures
        jobs_line_spec(jobs, i, poll) is Some,
        jobs_line_spec(jobs, i, poll)->0.take(job_tag(jobs[i].id, marker_spec(job_ids(jobs), job_ids(jobs)[i])).len() as int)
            == job_tag(jobs[i].id, marker_spec(job_ids(jobs), job_ids(jobs)[i])),
        reaped_line(jobs, i).take(job_tag(jobs[i].id, marker_spec(job_ids(jobs), job_ids(jobs)[i])).len() as int)
            == job_tag(jobs[i].id, marker_spec(job_ids(jobs), job_ids(jobs)[i])),
{
    assert(job_ids(jobs)[i] == jobs[i].id);
    let tag = job_tag(jobs[i].id, marker_spec(job_ids(jobs), job_ids(jobs)[i]));
    let line = jobs_line_spec(jobs, i, poll)->0;
    match poll {
        JobPoll::Finished => {
            assert(line == tag + ("  Done                 "@ + jobs[i].command@ + "\n"@));
        },
        JobPoll::Running => {
            assert(line == tag + ("  Running                "@ + jobs[i].command@ + " &\n"@));
        },
        JobPoll::Failed => {},
    }
    assert(reaped_line(jobs, i) == tag + ("  Done                "@ + jobs[i].command@ + " \n"@));
}

/// A background job as the shell reports it: its number and its command.
pub struct JobInfo {
    pub id: u32,
    pub command: String,
}

/// The job numbers.
pub open spec fn job_ids(jobs: Seq<JobInfo>) -> Seq<u32> {
    jobs.map_values(|j: JobInfo| j.id)
}

/// What polling a job's process found.
#[derive(PartialEq, Eq, Structural, Debug, Clone, Copy)]
pub enum JobPoll {
    /// It has ended.
    Finished,
    /// It is still running.
    Running,
    /// Its state could not be read.
    Failed,
}

/// `[N]M` for job number `n` with marker `m`.
pub open spec fn job_tag(n: u32, m: char) -> Seq<char> {
    seq!['['] + decimal(n as nat) + seq![']', m]
}

fn job_tag_string(n: u32, m: char) -> (r: String)
    ensures
        r@ == job_tag(n, m),
{
    let mut r = owned("[");
    let d = decimal_string(n as usize);
    r.append(d.as_str());
    push_char(&mut r, ']');
    push_char(&mut r, m);
    proof {
        reveal_strlit("[");
        assert("["@ == seq!['[']);
    }
    r
}

/// What happens to a job found in a poll while the shell waits for input.
pub enum ReapAction {
    /// It goes on running.
    Keep,
    /// It leaves the list; the text is printed first, when there is one.
    Remove(Option<String>),
}

/// The line that says that job `jobs[i]` is done, before the prompt.
pub open spec fn reaped_line(jobs: Seq<JobInfo>, i: int) -> Seq<char> {
    job_tag(jobs[i].id, marker_spec(job_ids(jobs), jobs[i].id)) + "  Done                "@
        + jobs[i].command@ + " \n"@
}

/// What to do with job `jobs[i]` after polling it: a finished job leaves
/// the list with a line saying it is done (marked as it stands in the list
/// before it leaves), a running one stays, and one that cannot be polled
/// leaves silently.
pub fn reap_decision(jobs: &[JobInfo], i: usize, poll: JobPoll) -> (r: ReapAction)
    requires
        i < jobs@.len(),
    ensures
        match poll {
            JobPoll::Finished => r matches ReapAction::Remove(Some(t)) && t@ == reaped_line(jobs@, i as int),
            JobPoll::Running => r is Keep,
            JobPoll::Failed => r matches ReapAction::Remove(None),
        },
{
    match poll {
        JobPoll::Running => ReapAction::Keep,
        JobPoll::Failed => ReapAction::Remove(None),
        JobPoll::Finished => {
            let ids = ids_of(jobs);
            let job = &jobs[i];
            let m = job_marker(ids.as_slice(), job.id);
            let mut t = job_tag_string(job.id, m);
            t.append("  Done                ");
            t.append(job.command.as_str());
            t.append(" \n");
            ReapAction::Remove(Some(t))
        },
    }
}

/// The job numbers of `jobs`.
pub fn ids_of(jobs: &[JobInfo]) -> (r: Vec<u32>)
    ensures
        r@ == job_ids(jobs@),
{
    let mut r: Vec<u32> = Vec::new();
    let mut k: usize = 0;
    while k < jobs.len()
        invariant
            k <= jobs.len(),
            r@ == job_ids(jobs@).take(k as int),
        decreases jobs.len() - k,
    {
        r.push(jobs[k].id);
        assert(job_ids(jobs@).take(k + 1) == job_ids(jobs@).take(k as int).push(jobs@[k as int].id));
        k += 1;
    }
    assert(job_ids(jobs@).take(jobs@.len() as int) == job_ids(jobs@));
    r
}

/// The line that the `jobs` builtin prints for `jobs[i]` after polling it:
/// `Done` for a finished job, `Running` for a running one, nothing for one
/// that cannot be polled; the markers are those of the whole list.
pub open spec fn jobs_line_spec(jobs: Seq<JobInfo>, i: int, poll: JobPoll) -> Option<Seq<char>> {
    let tag = job_tag(jobs[i].id, marker_spec(job_ids(jobs), jobs[i].id));
    match poll {
        JobPoll::Finished => Some(tag + "  Done                 "@ + jobs[i].command@ + "\n"@),
        JobPoll::Running => Some(tag + "  Running                "@ + jobs[i].command@ + " &\n"@),
        JobPoll::Failed => None,
    }
}

/// The line of the `jobs` listing for `jobs[i]`; the job stays in the list
/// only when it is running.
pub fn jobs_line(jobs: &[JobInfo], i: usize, poll: JobPoll) -> (r: Option<String>)
    requires
        i < jobs@.len(),
    ensures
        match r {
            Some(t) => jobs_line_spec(jobs@, i as int, poll) == Some(t@),
            None => jobs_line_spec(jobs@, i as int, poll) is None,
        },
{
    let ids = ids_of(jobs);
    let job = &jobs[i];
    let m = job_marker(ids.as_slice(), job.id);
    match poll {
        JobPoll::Finished => {
            let mut t = job_tag_string(job.id, m);
            t.append("  Done                 ");
            t.append(job.command.as_str());
            t.append("\n");
            Some(t)
        },
        JobPoll::Running => {
            let mut t = job_tag_string(job.id, m);
            t.append("  Running                ");
            t.append(job.command.as_str());
            t.append(" &\n");
            Some(t)
        },
        JobPoll::Failed => None,
    }
}

/// The command text recorded for a background job: the command name and
/// its arguments separated by spaces, trimmed.
pub open spec fn job_command_spec(name: Seq<char>, args: Seq<Seq<char>>) -> Seq<char> {
    let rest = join(args, " "@);
    trimmed(if rest.len() == 0 { name } else { name + " "@ + rest })
}

/// The command text of a background job.
pub fn job_command(name: &str, args: &[String]) -> (r: String)
    ensures
        r@ == job_command_spec(name@, views(args@)),
{
    let rest = join_strings(args, " ");
    if rest.as_str().is_empty() {
        trim(name)
    } else {
        let mut full = owned(name);
        full.append(" ");
        full.append(rest.as_str());
        trim(full.as_str())
    }
}

/// The line printed when a background job starts: `[N] PID`.
pub fn job_started_line(id: u32, pid: u32) -> (r: String)
    ensures
        r@ == seq!['['] + decimal(id as nat) + "] "@ + decimal(pid as nat) + "\n"@,
{
    let mut r = owned("[");
    r.append(decimal_string(id as usize).as_str());
    r.append("] ");
    r.append(decimal_string(pid as usize).as_str());
    r.append("\n");
    proof {
        reveal_strlit("[");
        assert("["@ == seq!['[']);
    }
    r
}

} // verus!
