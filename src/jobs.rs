use vstd::prelude::*;
use crate::lexer::views;

verus! {

/// A command left running in the background: its processes, and how it is listed.
#[derive(Clone, Debug)]
pub struct Job {
    pub pids: Vec<i32>,
    pub display: String,
}

/// The mathematical value of a `Job`.
pub struct JobModel {
    pub pids: Seq<i32>,
    pub display: Seq<char>,
}

impl View for Job {
    type V = JobModel;

    open spec fn view(&self) -> JobModel {
        JobModel { pids: self.pids@, display: self.display@ }
    }
}

pub open spec fn job_views(v: Seq<Job>) -> Seq<JobModel> {
    v.map_values(|j: Job| j@)
}

pub open spec fn flag_views(v: Seq<Vec<bool>>) -> Seq<Seq<bool>> {
    v.map_values(|f: Vec<bool>| f@)
}

/// Whether every process of a job has been seen to end.
pub open spec fn all_exited(exited: Seq<bool>) -> bool {
    forall|k: int| 0 <= k < exited.len() ==> #[trigger] exited[k]
}

/// The jobs that are still running, in order, given for each job whether each
/// of its processes has ended.
pub open spec fn running(jobs: Seq<JobModel>, exited: Seq<Seq<bool>>) -> Seq<JobModel>
    decreases jobs.len(),
{
    if jobs.len() == 0 {
        Seq::empty()
    } else {
        let earlier = running(jobs.drop_last(), exited.subrange(0, jobs.len() - 1));
        if all_exited(exited[jobs.len() - 1]) {
            earlier
        } else {
            earlier.push(jobs.last())
        }
    }
}

/// What listing jobs shows: the display of each, in order.
pub open spec fn displays(jobs: Seq<JobModel>) -> Seq<Seq<char>> {
    jobs.map_values(|j: JobModel| j.display)
}

/// The background jobs, in the order they were started.
pub struct JobTable {
    jobs: Vec<Job>,
}

impl View for JobTable {
    type V = Seq<JobModel>;

    closed spec fn view(&self) -> Seq<JobModel> {
        job_views(self.jobs@)
    }
}

impl JobTable {
    pub fn new() -> (r: JobTable)
        ensures
            r@ == Seq::<JobModel>::empty(),
    {
        let r = JobTable { jobs: Vec::new() };
        proof {
            assert(r@ =~= Seq::<JobModel>::empty());
        }
        r
    }

    pub fn len(&self) -> (r: usize)
        ensures
            r == self@.len(),
    {
        self.jobs.len()
    }

    /// The job at position `j`.
    pub fn get(&self, j: usize) -> (r: &Job)
        requires
            j < self@.len(),
        ensures
            r@ == self@[j as int],
    {
        &self.jobs[j]
    }

    /// Records a job at the end of the table.
    pub fn add(&mut self, job: Job)
        ensures
            final(self)@ == old(self)@.push(job@),
    {
        let ghost before = self.jobs@;
        self.jobs.push(job);
        proof {
            assert(job_views(self.jobs@) =~= job_views(before).push(job@));
        }
    }

    /// Drops the jobs whose processes have all ended, given for each job
    /// whether each of its processes has ended, and lists the others.
    pub fn reconcile(&mut self, exited: &Vec<Vec<bool>>) -> (r: Vec<String>)
        requires
            exited@.len() == old(self)@.len(),
            forall|j: int|
                0 <= j < exited@.len() ==> (#[trigger] exited@[j])@.len() == old(self)@[j].pids.len(),
        ensures
            final(self)@ == running(old(self)@, flag_views(exited@)),
            views(r@) == displays(final(self)@),
    {
        let ghost all = job_views(self.jobs@);
        let ghost flags = flag_views(exited@);
        let mut kept: Vec<Job> = Vec::new();
        let mut shown: Vec<String> = Vec::new();
        let mut j: usize = 0;
        proof {
            assert(all.subrange(0, 0) =~= Seq::<JobModel>::empty());
            assert(job_views(kept@) =~= running(all.subrange(0, 0), flags.subrange(0, 0)));
        }
        while j < self.jobs.len()
            invariant
                all == job_views(self.jobs@),
                flags == flag_views(exited@),
                exited@.len() == self.jobs@.len(),
                j <= self.jobs@.len(),
                job_views(kept@) == running(all.subrange(0, j as int), flags.subrange(0, j as int)),
                views(shown@) == displays(job_views(kept@)),
            decreases self.jobs@.len() - j,
        {
            let ex = &exited[j];
            let mut done = true;
            let mut k: usize = 0;
            while k < ex.len()
                invariant
                    k <= ex@.len(),
                    done == forall|m: int| 0 <= m < k ==> #[trigger] ex@[m],
                decreases ex@.len() - k,
            {
                if !ex[k] {
                    done = false;
                }
                k = k + 1;
            }
            proof {
                let sub = all.subrange(0, j + 1);
                assert(sub.drop_last() =~= all.subrange(0, j as int));
                assert(flags.subrange(0, j + 1).subrange(0, j as int) =~= flags.subrange(0, j as int));
                assert(flags.subrange(0, j + 1)[j as int] == ex@);
                assert(done == all_exited(ex@));
            }
            if !done {
                let job = Job {
                    pids: self.jobs[j].pids.clone(),
                    display: self.jobs[j].display.clone(),
                };
                let ghost kept_before = kept@;
                let ghost shown_before = shown@;
                shown.push(job.display.clone());
                kept.push(job);
                proof {
                    assert(job@.pids =~= all[j as int].pids);
                    assert(job@ == all[j as int]);
                    assert(job_views(kept@) =~= job_views(kept_before).push(job@));
                    assert(views(shown@) =~= views(shown_before).push(job@.display));
                    assert(displays(job_views(kept@)) =~= displays(job_views(kept_before)).push(
                        job@.display,
                    ));
                }
            }
            j = j + 1;
        }
        proof {
            assert(all.subrange(0, self.jobs@.len() as int) =~= all);
            assert(flags.subrange(0, self.jobs@.len() as int) =~= flags);
        }
        self.jobs = kept;
        shown
    }
}

/// A job just started is listed while any of its processes runs, and no
/// longer once all of them have ended; the jobs before it are unaffected.
pub proof fn lemma_new_job_listed_until_exit(
    jobs: Seq<JobModel>,
    exited: Seq<Seq<bool>>,
    job: JobModel,
    now: Seq<bool>,
)
    requires
        exited.len() == jobs.len(),
    ensures
        !all_exited(now) ==> running(jobs.push(job), exited.push(now)) == running(
            jobs,
            exited,
        ).push(job),
        all_exited(now) ==> running(jobs.push(job), exited.push(now)) == running(jobs, exited),
{
    assert(jobs.push(job).drop_last() =~= jobs);
    assert(exited.push(now).subrange(0, jobs.len() as int) =~= exited);
}

} // verus!
