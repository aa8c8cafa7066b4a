//! Goal-oriented action planning: a sparse world state, actions with
//! preconditions and effects, and an A* planner over world states.
pub mod planner;
pub mod replica;
pub mod state;
