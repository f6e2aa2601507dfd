//! Hierarchy-free reachability of Autonomous Systems.
//!
//! `topology` holds the AS-relationship graph, `paths` the valley-free
//! reachability engine over it, `analysis` the stripping of hierarchy layers
//! and the classification of ASes, and `caida` the reader of the
//! `AS1|AS2|code` interchange format.
pub mod topology;
pub mod paths;
pub mod analysis;
pub mod caida;
