use vstd::prelude::*;
use crate::config::EmbeddingsConfig;

verus! {

/// The stand-in embedding generator: it only carries the dimension and
/// batch size it was configured with. The vectors themselves are
/// floating-point values and are produced by the hosting application.
pub struct EmbeddingGenerator {
    pub dimension: usize,
    pub batch_size: usize,
}

impl EmbeddingGenerator {
    pub fn new(config: &EmbeddingsConfig) -> (g: Self)
        ensures
            g.dimension == config.dimension,
            g.batch_size == config.batch_size,
    {
        EmbeddingGenerator { dimension: config.dimension, batch_size: config.batch_size }
    }
}

} // verus!
