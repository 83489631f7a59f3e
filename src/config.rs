use vstd::prelude::*;

verus! {

/// Settings fixed for the lifetime of a process: the simulated grid, the
/// population, how many rules are shown side by side, and the shape of every
/// rule.
pub struct NeuralCellularAutomataConfig {
    pub size: (u32, u32),
    pub population_size: usize,
    pub num_variants: usize,
    pub kernel_size: usize,
    pub num_layers: usize,
}

} // verus!
