//! Core rules of a fruit-merging pit game: the tier ladder, the queue of
//! fruits to drop, the rule of one falling fruit at a time, the merging of
//! touching fruits and the overflow monitor. Positions are whole world
//! units; no physics is done here.

pub mod body;
pub mod game;
pub mod merge;
pub mod merge_laws;
pub mod queue;
pub mod resolve;
pub mod run;
pub mod tier;
