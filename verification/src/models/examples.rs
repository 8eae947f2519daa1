//! A small problem to try things out with.

use vstd::prelude::*;
use crate::construction::constraints::{ConstraintModule, ConstraintPipeline};
use crate::format::coord_index::CoordIndex;
use crate::models::common::TimeWindow;
use crate::models::problem::{Costs, Dimensions, Driver, Extras, Fleet, Job, JobKind, Matrix};
use crate::models::problem::{ObjectiveCost, Problem, TransportCost, Vehicle, VehicleDetail, VehiclePlace};
use crate::models::problem::{spec_actors, spec_detail_actors, spec_vehicle_actors, Actor, TravelLimits};

verus! {

/// What it costs and how long it takes to get from any place of the example
/// to any other.
pub const EXAMPLE_COST: i64 = 42;

/// The routing oracle of the example: one profile, two places, and the
/// same distance and travel time between any two of them.
pub fn create_example_transport() -> (transport: TransportCost)
    ensures
        transport.matrices@.len() == 1,
        forall|from: usize, to: usize|
            from < 2 && to < 2 ==> #[trigger] transport.spec_distance(0, from, to) == EXAMPLE_COST,
        forall|from: usize, to: usize|
            from < 2 && to < 2 ==> #[trigger] transport.spec_duration(0, from, to) == EXAMPLE_COST,
{
    let mut entries: Vec<i64> = Vec::new();
    entries.push(EXAMPLE_COST);
    entries.push(EXAMPLE_COST);
    entries.push(EXAMPLE_COST);
    entries.push(EXAMPLE_COST);
    let distances = entries.clone();
    assert(distances@ =~= entries@);
    let matrix = Matrix {
        num_origins: 2,
        num_destinations: 2,
        travel_times: entries,
        distances,
        error_codes: None,
    };
    let mut matrices: Vec<Matrix> = Vec::new();
    matrices.push(matrix);
    let transport = TransportCost::new(matrices);
    assert forall|from: usize, to: usize| from < 2 && to < 2 implies #[trigger] transport.spec_distance(
        0,
        from,
        to,
    ) == EXAMPLE_COST by {
        let m = transport.matrices@[0];
        assert(m.spec_index(from, to) == from * 2 + to);
        assert(m.covers(from, to));
    }
    assert forall|from: usize, to: usize| from < 2 && to < 2 implies #[trigger] transport.spec_duration(
        0,
        from,
        to,
    ) == EXAMPLE_COST by {
        let m = transport.matrices@[0];
        assert(m.spec_index(from, to) == from * 2 + to);
        assert(m.covers(from, to));
    }
    transport
}

/// The jobs of the example: one delivery at place `1`, without service
/// time, to begin between `0` and `100`.
pub fn create_example_jobs(fleet: &Fleet, transport: &TransportCost) -> (jobs: Vec<Job>)
    ensures
        jobs@.len() == 1,
        jobs@[0].kind is Delivery,
        jobs@[0].location == Some(1usize),
        jobs@[0].duration == 0,
        jobs@[0].time == (TimeWindow { start: 0, end: 100 }),
        jobs@[0].demand@.len() == 0,
        jobs@[0].vehicle is None,
        jobs@[0].dimens.id is None,
        jobs@[0].dimens.skills is None,
{
    let mut jobs: Vec<Job> = Vec::new();
    jobs.push(
        Job {
            kind: JobKind::Delivery,
            location: Some(1),
            duration: 0,
            time: TimeWindow::new(0, 100),
            demand: Vec::new(),
            vehicle: None,
            dimens: Dimensions::new(),
        },
    );
    jobs
}

/// The fleet of the example: one driver who costs nothing, and one vehicle
/// `v1` of profile `0` that costs `1` for each unit of way and starts at
/// place `0` at time `0` without having to return.
pub fn create_example_fleet() -> (fleet: Fleet)
    ensures
        fleet.wf(),
        fleet.drivers@.len() == 1,
        fleet.vehicles@.len() == 1,
        fleet.actors@.len() == 1,
        fleet.actors@[0].driver == 0 && fleet.actors@[0].vehicle == 0,
        fleet.actors@[0].detail.start == Some(VehiclePlace { location: 0, time: 0 }),
        fleet.actors@[0].detail.end is None,
        fleet.drivers@[0].costs == (Costs {
            fixed: 0,
            per_distance: 0,
            per_driving_time: 0,
            per_waiting_time: 0,
            per_service_time: 0,
        }),
        fleet.vehicles@[0].profile == 0,
        fleet.vehicles@[0].costs == (Costs {
            fixed: 0,
            per_distance: 1,
            per_driving_time: 0,
            per_waiting_time: 0,
            per_service_time: 0,
        }),
        fleet.vehicles@[0].dimens.id is Some,
        fleet.vehicles@[0].dimens.id->0@ == "v1"@,
{
    let mut drivers: Vec<Driver> = Vec::new();
    drivers.push(
        Driver {
            costs: Costs {
                fixed: 0,
                per_distance: 0,
                per_driving_time: 0,
                per_waiting_time: 0,
                per_service_time: 0,
            },
            dimens: Dimensions::new(),
            details: Vec::new(),
        },
    );
    let mut vehicle_dimens = Dimensions::new();
    vehicle_dimens.set_id("v1");
    let mut details: Vec<VehicleDetail> = Vec::new();
    let detail = VehicleDetail { start: Some(VehiclePlace { location: 0, time: 0 }), end: None };
    details.push(detail);
    let mut vehicles: Vec<Vehicle> = Vec::new();
    vehicles.push(
        Vehicle {
            profile: 0,
            costs: Costs {
                fixed: 0,
                per_distance: 1,
                per_driving_time: 0,
                per_waiting_time: 0,
                per_service_time: 0,
            },
            dimens: vehicle_dimens,
            capacity: Vec::new(),
            limits: TravelLimits::none(),
            details,
        },
    );
    let ghost vehicle_views = vehicles@;
    let fleet = Fleet::new(drivers, vehicles);
    proof {
        reveal_with_fuel(spec_actors, 3);
        reveal_with_fuel(spec_vehicle_actors, 3);
        reveal_with_fuel(spec_detail_actors, 3);
        assert(vehicle_views[0].details@ =~= seq![detail]);
        assert(fleet.actors@ =~= seq![Actor { driver: 0, vehicle: 0, detail }]);
    }
    fleet
}

/// The example problem: the fleet and the job of the example, the routing
/// oracle of the example, no locks, and a pipeline that watches transport
/// and the limits of travel.
pub fn create_example_problem() -> (problem: Problem)
    ensures
        problem.wf(),
        problem.jobs@.len() == 1,
        problem.jobs@[0].kind is Delivery,
        problem.jobs@[0].location == Some(1usize),
        problem.jobs@[0].duration == 0,
        problem.jobs@[0].time == (TimeWindow { start: 0, end: 100 }),
        problem.jobs@[0].demand@.len() == 0,
        problem.jobs@[0].vehicle is None,
        problem.jobs@[0].dimens.id is None,
        problem.jobs@[0].dimens.skills is None,
        problem.fleet.drivers@.len() == 1,
        problem.fleet.drivers@[0].costs == (Costs {
            fixed: 0,
            per_distance: 0,
            per_driving_time: 0,
            per_waiting_time: 0,
            per_service_time: 0,
        }),
        problem.fleet.actors@.len() == 1,
        problem.fleet.actors@[0].driver == 0 && problem.fleet.actors@[0].vehicle == 0,
        problem.fleet.actors@[0].detail.start == Some(VehiclePlace { location: 0, time: 0 }),
        problem.fleet.actors@[0].detail.end is None,
        problem.fleet.vehicles@.len() == 1,
        problem.fleet.vehicles@[0].profile == 0,
        problem.fleet.vehicles@[0].costs == (Costs {
            fixed: 0,
            per_distance: 1,
            per_driving_time: 0,
            per_waiting_time: 0,
            per_service_time: 0,
        }),
        problem.fleet.vehicles@[0].dimens.id is Some,
        problem.fleet.vehicles@[0].dimens.id->0@ == "v1"@,
        problem.locks@.len() == 0,
        problem.transport.matrices@.len() == 1,
        forall|from: usize, to: usize|
            from < 2 && to < 2 ==> #[trigger] problem.transport.spec_duration(0, from, to)
                == EXAMPLE_COST,
        problem.constraint.modules@ == seq![
            ConstraintModule::Transport { code: 1 },
            ConstraintModule::Travel { distance_code: 2, duration_code: 3 },
        ],
        problem.objective == ObjectiveCost::spec_default(),
        forall|from: usize, to: usize|
            from < 2 && to < 2 ==> #[trigger] problem.transport.spec_distance(0, from, to)
                == EXAMPLE_COST,
{
    let transport = create_example_transport();
    let fleet = create_example_fleet();
    let jobs = create_example_jobs(&fleet, &transport);
    let mut constraint = ConstraintPipeline::default();
    constraint.add_module(ConstraintModule::Transport { code: 1 });
    constraint.add_module(ConstraintModule::Travel { distance_code: 2, duration_code: 3 });
    assert(constraint.modules@ =~= seq![
        ConstraintModule::Transport { code: 1 },
        ConstraintModule::Travel { distance_code: 2, duration_code: 3 },
    ]);
    Problem {
        fleet,
        jobs,
        locks: Vec::new(),
        constraint,
        transport,
        objective: ObjectiveCost::default(),
        extras: Extras {
            problem_id: String::new(),
            capacity_type: String::new(),
            coord_index: CoordIndex::new(),
        },
    }
}

} // verus!
