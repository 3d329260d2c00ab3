//! Contour reconstruction for polygon boolean operations.
//!
//! A plane sweep has cut two polygons into segments and decided which of them bound the
//! result. This crate joins those segments into closed rings and works out which ring is a
//! hole of which.
//!
//! - `sweep_event`: the events that the sweep hands over, two for each segment.
//! - `order`: `order_events` picks the events of the result boundary and puts them into
//!   traversal order.
//! - `contour`: the rings, and the rule by which a new ring finds its place among them.
//! - `traversal`: what it is to walk along the rings, and that every event is walked over
//!   exactly once.
//! - `connect_edges`: `connect_edges` walks along the ordered events and closes the rings.
//! - `closed_rings`: on which boundaries the rings are closed polygons.
//! - `unique`: the events determine the rings.

pub mod closed_rings;
pub mod connect_edges;
pub mod contour;
pub mod order;
pub mod sweep_event;
pub mod traversal;
pub mod unique;
