//! A grocery list: categories and entries kept in a manual display order,
//! name suggestions, the rules of the static front end, and the plan of the
//! periodic demo reset.

pub mod model;
pub mod ordering;
pub mod grocery;
pub mod suggest;
pub mod web;
pub mod reset;
