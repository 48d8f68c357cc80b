//! What holds of the library as a whole.

pub mod components;
pub mod conflicts;
pub mod counts;
pub mod filters;
pub mod groups;
pub mod lines;
pub mod listings;
pub mod names;
pub mod paths;
pub mod plans;
pub mod recovery;
pub mod reruns;
pub mod sources;
pub mod statuses;
pub mod steps;
pub mod texts;
pub mod manifests;
pub mod checks;
pub mod cleaning;
pub mod logs;
pub mod moves;
