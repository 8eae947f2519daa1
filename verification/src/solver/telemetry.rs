//! The record of what a run did, for those who watch it.

use vstd::prelude::*;
use crate::solver::refinement::RefinementContext;

verus! {

/// One thing that a run reports.
#[derive(Clone, Copy, Debug)]
pub enum TelemetryEvent {
    /// The size of the problem that the run works on.
    ProblemSize { jobs: usize, actors: usize },
    /// An individual that was provided for the initial population and was
    /// not taken.
    SkippedProvided { index: usize },
    /// An individual that was built for the initial population and was not
    /// taken.
    SkippedBuilt { index: usize },
    /// An individual went into the initial population.
    Initial { index: usize, total: usize },
    /// The initial population stayed empty.
    EmptyPopulation,
    /// A generation has passed. `progress` is in thousandths of the way to
    /// the end of the run.
    Generation { generation: usize, progress: u64, is_improved: bool, population_size: usize },
}

impl TelemetryEvent {
    /// Whether the event reports the end of the generation `generation`
    /// with a population of `population_size`, improved or not, and a
    /// progress within the run.
    pub open spec fn closes_generation(self, generation: usize, is_improved: bool, population_size: nat) -> bool {
        match self {
            TelemetryEvent::Generation { generation: g, progress, is_improved: i, population_size: s } => g
                == generation && i == is_improved && s == population_size && progress <= 1000,
            _ => false,
        }
    }
}

/// What a run has reported so far, in order.
pub struct Telemetry {
    pub events: Vec<TelemetryEvent>,
}

impl Telemetry {
    /// A record without events.
    pub fn new() -> (telemetry: Telemetry)
        ensures
            telemetry.events@ == Seq::<TelemetryEvent>::empty(),
    {
        Telemetry { events: Vec::new() }
    }

    /// Reports an event.
    pub fn log(&mut self, event: TelemetryEvent)
        ensures
            final(self).events@ == old(self).events@.push(event),
    {
        self.events.push(event);
    }

    /// Reports that the individual at `index` of `total` went into the
    /// initial population.
    pub fn on_initial(&mut self, index: usize, total: usize)
        ensures
            final(self).events@ == old(self).events@.push(TelemetryEvent::Initial { index, total }),
    {
        self.events.push(TelemetryEvent::Initial { index, total });
    }

    /// Reports that a generation has passed. A progress beyond the end of
    /// the run is reported as the end.
    pub fn on_generation(&mut self, refinement_ctx: &RefinementContext, termination_estimate: u64, is_improved: bool)
        ensures
            final(self).events@ == old(self).events@.push(
                TelemetryEvent::Generation {
                    generation: refinement_ctx.statistics.generation,
                    progress: if termination_estimate > 1000 {
                        1000
                    } else {
                        termination_estimate
                    },
                    is_improved,
                    population_size: refinement_ctx@.population.individuals.len() as usize,
                },
            ),
    {
        let progress: u64 = if termination_estimate > 1000 {
            1000
        } else {
            termination_estimate
        };
        self.events.push(
            TelemetryEvent::Generation {
                generation: refinement_ctx.statistics.generation,
                progress,
                is_improved,
                population_size: refinement_ctx.population.size(),
            },
        );
    }
}

} // verus!
