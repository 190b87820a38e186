use vstd::prelude::*;

verus! {

/// Size of a multi-process run: agents, square map side, and how long to wait
/// for completion (seconds); the run sends three tasks per agent.
pub struct TestConfig {
    pub num_agents: usize,
    pub map_size: usize,
    pub wait_time_secs: u64,
}

impl Default for TestConfig {
    /// Three agents on a 100 by 100 map, waiting a minute.
    fn default() -> (c: TestConfig)
        ensures
            c.num_agents == 3,
            c.map_size == 100,
            c.wait_time_secs == 60,
    {
        TestConfig { num_agents: 3, map_size: 100, wait_time_secs: 60 }
    }
}

} // verus!
