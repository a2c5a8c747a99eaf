//! Navigation logic of a CiberRato maze-exploring mouse: grid directions, the
//! sparse wall map with its search routines, and the discrete decisions of the
//! agents that drive the robot.
pub mod dir;
pub mod map;
pub mod walk;
pub mod bfs;
pub mod route;
pub mod dijkstra;
pub mod planner;
pub mod heading;
pub mod position;
pub mod motion;
pub mod walls;
pub mod wall_follow;
pub mod mission;
pub mod text;
pub mod codec;
pub mod protocol;
pub mod measurements;
