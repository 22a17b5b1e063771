//! Decision logic of a model-serving stack: ordered parsing of model output into chat
//! chunks, replica agreement on session affinity, and worker-selection policies.

pub mod session_affinity;
pub mod unified;
pub mod worker_selection;
