//! What a solution costs and how two solutions rank.

use vstd::prelude::*;
use crate::construction::context::{Activity, InsertionContext, RouteContext, RouteView, SolutionView};
use crate::construction::constraints::spec_begin;
use crate::models::common::{Cost, Profile};
use crate::models::problem::{Costs, JobKind, Problem};
use crate::utils::numeric::{add_amounts, clamp, elapsed, mul_amounts};
use crate::utils::numeric::{spec_add_amounts, spec_clamp, spec_elapsed, spec_mul_amounts};

verus! {

/// How the time of a tour is spent.
#[derive(Clone, Copy, Debug)]
pub struct Timing {
    pub driving: u64,
    pub serving: u64,
    pub waiting: u64,
    pub break_time: u64,
}

/// The measures of a tour, or of all tours of a solution.
#[derive(Clone, Copy, Debug)]
pub struct Statistic {
    pub cost: Cost,
    pub distance: u64,
    pub duration: u64,
    pub times: Timing,
}

/// The rank of a solution: the fewer jobs it leaves unserved the better,
/// and of two that leave as many the cheaper one.
#[derive(Clone, Copy, Debug)]
pub struct Fitness {
    pub unserved: u64,
    pub cost: Cost,
}

impl Fitness {
    /// Whether a solution of this rank is better than one of rank `other`.
    pub open spec fn spec_better(self, other: Fitness) -> bool {
        self.unserved < other.unserved || (self.unserved == other.unserved && self.cost
            < other.cost)
    }

    /// Tells whether a solution of this rank is better than one of rank
    /// `other`.
    pub fn better(&self, other: &Fitness) -> (result: bool)
        ensures
            result == self.spec_better(*other),
    {
        self.unserved < other.unserved || (self.unserved == other.unserved && self.cost
            < other.cost)
    }
}

/// Whether the stop serves a break.
pub open spec fn spec_is_break(problem: &Problem, activity: Activity) -> bool {
    match activity.job {
        Some(job) => job < problem.jobs@.len() && problem.jobs@[job as int].kind is Break,
        None => false,
    }
}

/// The costs of an actor: those of its vehicle and its driver together.
pub open spec fn spec_actor_costs(problem: &Problem, actor: usize) -> Costs {
    let none = Costs {
        fixed: 0,
        per_distance: 0,
        per_driving_time: 0,
        per_waiting_time: 0,
        per_service_time: 0,
    };
    if actor < problem.fleet.actors@.len() {
        let a = problem.fleet.actors@[actor as int];
        let v = if a.vehicle < problem.fleet.vehicles@.len() {
            problem.fleet.vehicles@[a.vehicle as int].costs
        } else {
            none
        };
        let d = if a.driver < problem.fleet.drivers@.len() {
            problem.fleet.drivers@[a.driver as int].costs
        } else {
            none
        };
        Costs {
            fixed: spec_add_amounts(v.fixed, d.fixed),
            per_distance: spec_add_amounts(v.per_distance, d.per_distance),
            per_driving_time: spec_add_amounts(v.per_driving_time, d.per_driving_time),
            per_waiting_time: spec_add_amounts(v.per_waiting_time, d.per_waiting_time),
            per_service_time: spec_add_amounts(v.per_service_time, d.per_service_time),
        }
    } else {
        none
    }
}

/// The measures of the first `upto` stops of a tour: the way and the
/// driving time to each stop as the routing oracle gives them, a pair
/// without a route counting as zero; and, read from the schedule, the
/// waiting at the stop until service begins and the service, which for a
/// break counts as break time. The cost is not part of this sum.
pub open spec fn spec_measures(problem: &Problem, profile: Profile, tour: Seq<Activity>, upto: int) -> Statistic
    decreases upto,
{
    if upto <= 0 {
        Statistic {
            cost: 0,
            distance: 0,
            duration: 0,
            times: Timing { driving: 0, serving: 0, waiting: 0, break_time: 0 },
        }
    } else {
        let before = spec_measures(problem, profile, tour, upto - 1);
        let stop = tour[upto - 1];
        let begin = spec_begin(stop.schedule.arrival, stop);
        let service = spec_elapsed(begin, stop.schedule.departure);
        let way = if upto == 1 {
            0
        } else {
            spec_clamp(
                problem.transport.spec_distance(profile, tour[upto - 2].location, stop.location),
            )
        };
        let driving = if upto == 1 {
            0
        } else {
            spec_clamp(
                problem.transport.spec_duration(profile, tour[upto - 2].location, stop.location),
            )
        };
        Statistic {
            cost: 0,
            distance: spec_add_amounts(before.distance, way),
            duration: 0,
            times: Timing {
                driving: spec_add_amounts(before.times.driving, driving),
                serving: if spec_is_break(problem, stop) {
                    before.times.serving
                } else {
                    spec_add_amounts(before.times.serving, service)
                },
                waiting: spec_add_amounts(
                    before.times.waiting,
                    spec_elapsed(stop.schedule.arrival, begin),
                ),
                break_time: if spec_is_break(problem, stop) {
                    spec_add_amounts(before.times.break_time, service)
                } else {
                    before.times.break_time
                },
            },
        }
    }
}

/// The time of a tour: driving, serving, waiting and breaks together.
pub open spec fn spec_duration_of(times: Timing) -> u64 {
    spec_add_amounts(
        spec_add_amounts(spec_add_amounts(times.driving, times.serving), times.waiting),
        times.break_time,
    )
}

/// What a tour with the given measures costs an actor: the fixed cost, the
/// way, and each kind of time at its rate, a break at the rate of service.
pub open spec fn spec_cost_of(costs: Costs, distance: u64, times: Timing) -> Cost {
    spec_add_amounts(
        spec_add_amounts(
            spec_add_amounts(
                spec_add_amounts(costs.fixed, spec_mul_amounts(costs.per_distance, distance)),
                spec_mul_amounts(costs.per_driving_time, times.driving),
            ),
            spec_mul_amounts(
                costs.per_service_time,
                spec_add_amounts(times.serving, times.break_time),
            ),
        ),
        spec_mul_amounts(costs.per_waiting_time, times.waiting),
    )
}

/// The measures of a route.
pub open spec fn spec_route_statistic(problem: &Problem, route: RouteView) -> Statistic {
    let measures = spec_measures(
        problem,
        problem.spec_profile(route.actor),
        route.tour,
        route.tour.len() as int,
    );
    Statistic {
        cost: spec_cost_of(spec_actor_costs(problem, route.actor), measures.distance, measures.times),
        distance: measures.distance,
        duration: spec_duration_of(measures.times),
        times: measures.times,
    }
}

/// The measures of the first `upto` routes together.
pub open spec fn spec_total_statistic(problem: &Problem, routes: Seq<RouteView>, upto: int) -> Statistic
    decreases upto,
{
    if upto <= 0 {
        Statistic {
            cost: 0,
            distance: 0,
            duration: 0,
            times: Timing { driving: 0, serving: 0, waiting: 0, break_time: 0 },
        }
    } else {
        let before = spec_total_statistic(problem, routes, upto - 1);
        let route = spec_route_statistic(problem, routes[upto - 1]);
        Statistic {
            cost: spec_add_amounts(before.cost, route.cost),
            distance: spec_add_amounts(before.distance, route.distance),
            duration: spec_add_amounts(before.duration, route.duration),
            times: Timing {
                driving: spec_add_amounts(before.times.driving, route.times.driving),
                serving: spec_add_amounts(before.times.serving, route.times.serving),
                waiting: spec_add_amounts(before.times.waiting, route.times.waiting),
                break_time: spec_add_amounts(before.times.break_time, route.times.break_time),
            },
        }
    }
}

/// The rank of a solution: the jobs that it does not serve, required and
/// unassigned ones, and the cost of its routes with the penalty for each
/// unserved job.
pub open spec fn spec_fitness(problem: &Problem, solution: SolutionView) -> Fitness {
    let unserved = spec_add_amounts(solution.required.len() as u64, solution.unassigned.len() as u64);
    Fitness {
        unserved,
        cost: spec_add_amounts(
            spec_total_statistic(problem, solution.routes, solution.routes.len() as int).cost,
            spec_mul_amounts(problem.objective.unassigned_penalty, unserved),
        ),
    }
}

impl Problem {
    /// Tells whether a stop serves a break.
    pub fn is_break(&self, activity: &Activity) -> (result: bool)
        ensures
            result == spec_is_break(self, *activity),
    {
        match activity.job {
            Some(job) => {
                if job < self.jobs.len() {
                    match self.jobs[job].kind {
                        JobKind::Break => true,
                        _ => false,
                    }
                } else {
                    false
                }
            },
            None => false,
        }
    }

    /// The costs of an actor.
    pub fn actor_costs(&self, actor: usize) -> (costs: Costs)
        ensures
            costs == spec_actor_costs(self, actor),
    {
        let none = Costs {
            fixed: 0,
            per_distance: 0,
            per_driving_time: 0,
            per_waiting_time: 0,
            per_service_time: 0,
        };
        if actor < self.fleet.actors.len() {
            let a = self.fleet.actors[actor];
            let v = if a.vehicle < self.fleet.vehicles.len() {
                self.fleet.vehicles[a.vehicle].costs
            } else {
                none
            };
            let d = if a.driver < self.fleet.drivers.len() {
                self.fleet.drivers[a.driver].costs
            } else {
                none
            };
            Costs {
                fixed: add_amounts(v.fixed, d.fixed),
                per_distance: add_amounts(v.per_distance, d.per_distance),
                per_driving_time: add_amounts(v.per_driving_time, d.per_driving_time),
                per_waiting_time: add_amounts(v.per_waiting_time, d.per_waiting_time),
                per_service_time: add_amounts(v.per_service_time, d.per_service_time),
            }
        } else {
            none
        }
    }

    /// The measures of a route: ways and driving times from the routing
    /// oracle, waiting and service from the schedule of its stops.
    pub fn route_statistic(&self, route_ctx: &RouteContext) -> (statistic: Statistic)
        ensures
            statistic == spec_route_statistic(self, route_ctx@),
    {
        let profile: Profile = self.profile(route_ctx.actor);
        let n: usize = route_ctx.tour.len();
        let mut distance: u64 = 0;
        let mut times = Timing { driving: 0, serving: 0, waiting: 0, break_time: 0 };
        let mut p: usize = 0;
        while p < n
            invariant
                n == route_ctx.tour@.len(),
                p <= n,
                profile == self.spec_profile(route_ctx.actor),
                distance == spec_measures(self, profile, route_ctx.tour@, p as int).distance,
                times == spec_measures(self, profile, route_ctx.tour@, p as int).times,
            decreases n - p,
        {
            let stop: Activity = route_ctx.tour[p];
            let begin: i64 = if stop.schedule.arrival < stop.time.start {
                stop.time.start
            } else {
                stop.schedule.arrival
            };
            let service: u64 = elapsed(begin, stop.schedule.departure);
            if p > 0 {
                let previous: Activity = route_ctx.tour[p - 1];
                distance = add_amounts(
                    distance,
                    clamp(self.transport.distance(profile, previous.location, stop.location, 0)),
                );
                times.driving = add_amounts(
                    times.driving,
                    clamp(
                        self.transport.duration(
                            profile,
                            previous.location,
                            stop.location,
                            previous.schedule.departure,
                        ),
                    ),
                );
            }
            times.waiting = add_amounts(times.waiting, elapsed(stop.schedule.arrival, begin));
            if self.is_break(&stop) {
                times.break_time = add_amounts(times.break_time, service);
            } else {
                times.serving = add_amounts(times.serving, service);
            }
            p = p + 1;
        }
        let costs = self.actor_costs(route_ctx.actor);
        let cost: Cost = add_amounts(
            add_amounts(
                add_amounts(
                    add_amounts(costs.fixed, mul_amounts(costs.per_distance, distance)),
                    mul_amounts(costs.per_driving_time, times.driving),
                ),
                mul_amounts(costs.per_service_time, add_amounts(times.serving, times.break_time)),
            ),
            mul_amounts(costs.per_waiting_time, times.waiting),
        );
        let duration: u64 = add_amounts(
            add_amounts(add_amounts(times.driving, times.serving), times.waiting),
            times.break_time,
        );
        Statistic { cost, distance, duration, times }
    }

    /// The measures of all routes of a solution together.
    pub fn total_statistic(&self, insertion_ctx: &InsertionContext) -> (statistic: Statistic)
        ensures
            statistic == spec_total_statistic(
                self,
                insertion_ctx.solution@.routes,
                insertion_ctx.solution@.routes.len() as int,
            ),
    {
        let n: usize = insertion_ctx.solution.routes.len();
        let mut total = Statistic {
            cost: 0,
            distance: 0,
            duration: 0,
            times: Timing { driving: 0, serving: 0, waiting: 0, break_time: 0 },
        };
        let mut r: usize = 0;
        while r < n
            invariant
                n == insertion_ctx.solution.routes@.len(),
                r <= n,
                total == spec_total_statistic(self, insertion_ctx.solution@.routes, r as int),
            decreases n - r,
        {
            let route = self.route_statistic(&insertion_ctx.solution.routes[r]);
            total = Statistic {
                cost: add_amounts(total.cost, route.cost),
                distance: add_amounts(total.distance, route.distance),
                duration: add_amounts(total.duration, route.duration),
                times: Timing {
                    driving: add_amounts(total.times.driving, route.times.driving),
                    serving: add_amounts(total.times.serving, route.times.serving),
                    waiting: add_amounts(total.times.waiting, route.times.waiting),
                    break_time: add_amounts(total.times.break_time, route.times.break_time),
                },
            };
            r = r + 1;
        }
        total
    }

    /// The rank of a solution.
    pub fn estimate_cost(&self, insertion_ctx: &InsertionContext) -> (fitness: Fitness)
        ensures
            fitness == spec_fitness(self, insertion_ctx.solution@),
    {
        let unserved: u64 = add_amounts(
            insertion_ctx.solution.required.len() as u64,
            insertion_ctx.solution.unassigned.len() as u64,
        );
        let total = self.total_statistic(insertion_ctx);
        Fitness {
            unserved,
            cost: add_amounts(total.cost, mul_amounts(self.objective.unassigned_penalty, unserved)),
        }
    }
}

} // verus!
