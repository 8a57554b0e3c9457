//! The configuration surface: PUCT constants, root-noise constants,
//! simulation budgets, and the training-facing constants that travel through
//! the same object but are consumed by the training collaborator.
//!
//! Real-valued constants are fixed-point integers over
//! [`VSCALE`](crate::fixed::VSCALE): `1.25` is stored as `12_500`.

use vstd::prelude::*;

use crate::fixed::{SIM_LIMIT, VSCALE};

verus! {

/// The PUCT exploration constants, fixed-point over `VSCALE`.
#[derive(Clone, Copy)]
pub struct UCBParameters {
    pub c_base: u64,
    pub c_init: u64,
}

impl UCBParameters {
    /// Bounds under which every PUCT score fits in machine integers.
    pub open spec fn wf(&self) -> bool {
        &&& 1 <= self.c_base <= 1_000_000_000_000
        &&& self.c_init <= 1_000_000_000
    }
}

/// Root exploration-noise constants, fixed-point over `VSCALE`.
#[derive(Clone, Copy)]
pub struct NoiseParameters {
    pub dirichlet_alpha: u64,
    pub exploration_fraction: u64,
}

impl NoiseParameters {
    /// The blending fraction is a probability.
    pub open spec fn wf(&self) -> bool {
        self.exploration_fraction <= VSCALE
    }
}

/// Simulation budgets. `maximum_number_of_moves` bounds a whole game and is
/// enforced by the move-loop collaborator, not by this engine.
pub struct SimulationParameters {
    pub number_of_sampling_moves: usize,
    pub maximum_number_of_moves: usize,
    pub number_of_simulations: usize,
}

impl SimulationParameters {
    /// The per-move simulation budget the statistics are sized for.
    pub open spec fn wf(&self) -> bool {
        self.number_of_simulations <= SIM_LIMIT
    }
}

/// Constants consumed by the excluded training collaborator; `weight_decay`,
/// `momentum` and the schedule rates are fixed-point over `VSCALE`.
pub struct TrainingParameters {
    pub steps: usize,
    pub checkpoint_interval: usize,
    pub window_size: usize,
    pub batch_size: usize,
    pub weight_decay: u64,
    pub momentum: u64,
    pub learning_rate_schedule: Vec<(usize, u64)>,
}

/// The rate of the last schedule entry whose threshold is at most `step`;
/// zero when no entry qualifies.
pub open spec fn rate_at(schedule: Seq<(usize, u64)>, step: int) -> int
    decreases schedule.len(),
{
    if schedule.len() == 0 {
        0
    } else if schedule.last().0 <= step {
        schedule.last().1 as int
    } else {
        rate_at(schedule.drop_last(), step)
    }
}

impl TrainingParameters {
    /// The piecewise-constant learning rate in effect at `step`.
    pub fn effective_learning_rate(&self, step: usize) -> (r: u64)
        ensures
            r == rate_at(self.learning_rate_schedule@, step as int),
    {
        let mut r: u64 = 0;
        let mut i: usize = 0;
        let n: usize = self.learning_rate_schedule.len();
        while i < n
            invariant
                0 <= i <= n,
                n == self.learning_rate_schedule@.len(),
                r == rate_at(self.learning_rate_schedule@.take(i as int), step as int),
            decreases n - i,
        {
            let (threshold, rate) = self.learning_rate_schedule[i];
            proof {
                let pre = self.learning_rate_schedule@.take(i as int + 1);
                assert(pre.drop_last() =~= self.learning_rate_schedule@.take(i as int));
                assert(pre.last() == self.learning_rate_schedule@[i as int]);
            }
            if threshold <= step {
                r = rate;
            }
            i = i + 1;
        }
        proof {
            assert(self.learning_rate_schedule@.take(n as int) =~= self.learning_rate_schedule@);
        }
        r
    }
}

/// Everything one engine run is configured by.
pub struct AlphaZeroConfig {
    pub actor_count: usize,
    pub ucb_parameter: UCBParameters,
    pub noise_parameters: NoiseParameters,
    pub simulation_parameters: SimulationParameters,
    pub training_parameters: TrainingParameters,
}

impl AlphaZeroConfig {
    /// The bounds the engine's arithmetic is proved under.
    pub open spec fn wf(&self) -> bool {
        &&& self.ucb_parameter.wf()
        &&& self.noise_parameters.wf()
        &&& self.simulation_parameters.wf()
    }
}

impl Default for AlphaZeroConfig {
    /// The reference constants: `c_base = 19652`, `c_init = 1.25`,
    /// `dirichlet_alpha = 0.3`, `exploration_fraction = 0.25`, 800
    /// simulations per move, sampling for the first 30 moves.
    fn default() -> (c: Self)
        ensures
            c.actor_count == 5000,
            c.ucb_parameter.c_base == 196_520_000,
            c.ucb_parameter.c_init == 12_500,
            c.noise_parameters.dirichlet_alpha == 3_000,
            c.noise_parameters.exploration_fraction == 2_500,
            c.simulation_parameters.number_of_sampling_moves == 30,
            c.simulation_parameters.maximum_number_of_moves == 512,
            c.simulation_parameters.number_of_simulations == 800,
            c.training_parameters.steps == 700_000,
            c.training_parameters.checkpoint_interval == 1_000,
            c.training_parameters.window_size == 1_000_000,
            c.training_parameters.batch_size == 4096,
            c.training_parameters.weight_decay == 1,
            c.training_parameters.momentum == 9_000,
            c.training_parameters.learning_rate_schedule@ == seq![
                (0usize, 2_000u64),
                (100_000usize, 200u64),
                (300_000usize, 20u64),
                (500_000usize, 2u64),
            ],
            c.wf(),
    {
        let mut schedule: Vec<(usize, u64)> = Vec::new();
        schedule.push((0, 2_000));
        schedule.push((100_000, 200));
        schedule.push((300_000, 20));
        schedule.push((500_000, 2));
        proof {
            assert(schedule@ =~= seq![
                (0usize, 2_000u64),
                (100_000usize, 200u64),
                (300_000usize, 20u64),
                (500_000usize, 2u64),
            ]);
        }
        AlphaZeroConfig {
            actor_count: 5000,
            ucb_parameter: UCBParameters { c_base: 196_520_000, c_init: 12_500 },
            noise_parameters: NoiseParameters {
                dirichlet_alpha: 3_000,
                exploration_fraction: 2_500,
            },
            simulation_parameters: SimulationParameters {
                number_of_sampling_moves: 30,
                maximum_number_of_moves: 512,
                number_of_simulations: 800,
            },
            training_parameters: TrainingParameters {
                steps: 700_000,
                checkpoint_interval: 1_000,
                window_size: 1_000_000,
                batch_size: 4096,
                weight_decay: 1,
                momentum: 9_000,
                learning_rate_schedule: schedule,
            },
        }
    }
}

} // verus!
