//! Tournament results of a table-soccer federation as a typed model:
//! teams, matches, phases and competitions, the qualification links between
//! competitions, and the seeding of play-off rankings by qualification order.

pub mod coral;
pub mod fast;
pub mod graph;
pub mod itsf;
pub mod model;
pub mod seeding;
pub mod sportsmanager;
