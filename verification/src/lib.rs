//! Verified decision kernels of a Screeps bot: room-scale grid search,
//! tick-scoped pathfinding budgets and route caches, route pricing, room
//! intel classification, the repair and visibility queues, scout and
//! observer assignment, tower fire control, the attack campaign and claim
//! selection state machines, the defense and offense scans, candidate-room
//! gathering, combat objectives, and the policy predicates the operations
//! and missions are built on.

pub mod tier;
pub mod pathbudget;
pub mod gridsearch;
pub mod geometry;
pub mod roomdata;
pub mod routepricing;
pub mod utility;
pub mod war;
pub mod pathfinderservice;
pub mod claim;
pub mod movementsystem;
pub mod value;
pub mod hauldistance;
pub mod visibility;
pub mod scoutassignment;
pub mod attack;
pub mod tower;
pub mod defense;
pub mod wall_repair;
pub mod salvage;
pub mod colony;
pub mod roomplan;
pub mod sourcekeeper;
pub mod repairqueue;
pub mod claimselect;
pub mod operations;
pub mod objectives;
pub mod gather;
pub mod offense;
pub mod defensescan;
