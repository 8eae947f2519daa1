//! The jobs of a plan as the solver sees them.

use vstd::prelude::*;
use crate::format::api::{Coordinate, JobPlace, JobVariant};
use crate::format::coord_index::{spec_position, CoordIndex};
use crate::format::reader::{add_skills, spec_skill_set, spec_texts, ApiProblem};
use crate::format::time::{spec_time_window, try_parse_time_window};
use crate::models::common::TimeWindow;
use crate::models::problem::{Dimensions, Job, JobKind};

verus! {

/// The time window of a visit: the first of its windows, and every time
/// where it names none. Nothing where the first window is not a pair of well
/// written times.
pub open spec fn spec_window(times: Option<Vec<Vec<String>>>) -> Option<TimeWindow> {
    match times {
        Some(windows) => if windows@.len() == 0 {
            Some(TimeWindow::spec_max())
        } else {
            spec_time_window(windows@[0]@)
        },
        None => Some(TimeWindow::spec_max()),
    }
}

/// Reads the time window of a visit.
pub fn read_window(times: &Option<Vec<Vec<String>>>) -> (window: Option<TimeWindow>)
    ensures
        window == spec_window(*times),
{
    match times {
        Some(windows) => {
            if windows.len() == 0 {
                Some(TimeWindow::max())
            } else {
                try_parse_time_window(&windows[0])
            }
        },
        None => Some(TimeWindow::max()),
    }
}

/// The one place of a job with one visit and what is done there; nothing
/// for a job with no place or with two.
pub open spec fn spec_only_place(job: crate::format::api::Job) -> Option<(JobKind, JobPlace)> {
    match (job.places.pickup, job.places.delivery) {
        (Some(pickup), None) => Some((JobKind::Pickup, pickup)),
        (None, Some(delivery)) => Some((JobKind::Delivery, delivery)),
        _ => None,
    }
}

/// Whether a job of the plan can be read: it has exactly one place, the
/// place is in the index, and its time window is well written.
pub open spec fn spec_job_readable(coords: Seq<Coordinate>, variant: JobVariant) -> bool {
    match variant {
        JobVariant::Single(job) => match spec_only_place(job) {
            Some((_, place)) => spec_position(coords, place.location, coords.len() as int) is Some
                && spec_window(place.times) is Some,
            None => false,
        },
        JobVariant::Multi(_) => false,
    }
}

/// Whether `job` is what the solver sees of a job of the plan that can be
/// read.
pub open spec fn spec_is_job(coords: Seq<Coordinate>, variant: JobVariant, job: Job) -> bool {
    match variant {
        JobVariant::Single(single) => match spec_only_place(single) {
            Some((kind, place)) => {
                &&& job.kind == kind
                &&& job.location == spec_position(coords, place.location, coords.len() as int)
                &&& job.duration == place.duration
                &&& Some(job.time) == spec_window(place.times)
                &&& job.demand@ == single.demand@
                &&& job.vehicle is None
                &&& job.dimens.id is Some
                &&& job.dimens.id->0@ == single.id@
                &&& match single.skills {
                    Some(skills) => job.dimens.skills is Some && spec_texts(job.dimens.skills->0@)
                        == spec_skill_set(skills@, skills@.len() as int),
                    None => job.dimens.skills is None,
                }
            },
            None => false,
        },
        JobVariant::Multi(_) => false,
    }
}

/// Reads a job of the plan; there is no result for a job that cannot be
/// read.
pub fn read_job(coord_index: &CoordIndex, variant: &JobVariant) -> (result: Option<Job>)
    ensures
        match result {
            Some(job) => spec_job_readable(coord_index.coords@, *variant) && spec_is_job(
                coord_index.coords@,
                *variant,
                job,
            ),
            None => !spec_job_readable(coord_index.coords@, *variant),
        },
{
    match variant {
        JobVariant::Single(single) => {
            let (kind, place) = match (&single.places.pickup, &single.places.delivery) {
                (Some(pickup), None) => (JobKind::Pickup, pickup),
                (None, Some(delivery)) => (JobKind::Delivery, delivery),
                _ => {
                    return None;
                },
            };
            let location = match coord_index.get_by_loc(&place.location) {
                Some(location) => location,
                None => {
                    return None;
                },
            };
            let time = match read_window(&place.times) {
                Some(time) => time,
                None => {
                    return None;
                },
            };
            let mut dimens = Dimensions::new();
            dimens.id = Some(single.id.clone());
            add_skills(&mut dimens, &single.skills);
            let demand = single.demand.clone();
            assert(demand@ =~= single.demand@);
            Some(
                Job {
                    kind,
                    location: Some(location),
                    duration: place.duration,
                    time,
                    demand,
                    vehicle: None,
                    dimens,
                },
            )
        },
        JobVariant::Multi(_) => None,
    }
}

/// Whether every job of the plan can be read.
pub open spec fn spec_jobs_readable(coords: Seq<Coordinate>, jobs: Seq<JobVariant>) -> bool {
    forall|j: int| 0 <= j < jobs.len() ==> spec_job_readable(coords, #[trigger] jobs[j])
}

/// Reads the jobs of the plan, in their order; there is no result where
/// one of them cannot be read.
pub fn read_jobs(api_problem: &ApiProblem, coord_index: &CoordIndex) -> (result: Option<Vec<Job>>)
    ensures
        match result {
            Some(jobs) => {
                &&& spec_jobs_readable(coord_index.coords@, api_problem.plan.jobs@)
                &&& jobs@.len() == api_problem.plan.jobs@.len()
                &&& forall|j: int|
                    0 <= j < jobs@.len() ==> spec_is_job(
                        coord_index.coords@,
                        api_problem.plan.jobs@[j],
                        #[trigger] jobs@[j],
                    )
            },
            None => !spec_jobs_readable(coord_index.coords@, api_problem.plan.jobs@),
        },
{
    let mut jobs: Vec<Job> = Vec::new();
    let mut j: usize = 0;
    while j < api_problem.plan.jobs.len()
        invariant
            j <= api_problem.plan.jobs@.len(),
            jobs@.len() == j,
            forall|k: int|
                0 <= k < j ==> spec_job_readable(coord_index.coords@, #[trigger] api_problem.plan.jobs@[k]),
            forall|k: int|
                0 <= k < j ==> spec_is_job(
                    coord_index.coords@,
                    api_problem.plan.jobs@[k],
                    #[trigger] jobs@[k],
                ),
        decreases api_problem.plan.jobs@.len() - j,
    {
        match read_job(coord_index, &api_problem.plan.jobs[j]) {
            Some(job) => {
                jobs.push(job);
            },
            None => {
                assert(!spec_job_readable(coord_index.coords@, api_problem.plan.jobs@[j as int]));
                return None;
            },
        }
        j = j + 1;
    }
    Some(jobs)
}

} // verus!
