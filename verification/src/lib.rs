pub mod bag;
pub mod case_graph;
pub mod case_stats;
pub mod combinatorics;
pub mod marking;
pub mod min_events;
pub mod petri_net;
pub mod search;
pub mod type_storage;
pub mod walks;
