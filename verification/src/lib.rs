//! Built-in constraint propagators with verified contracts.
use vstd::prelude::*;

pub mod all_different;
pub mod arith;
pub mod circuit;
pub mod clause;
pub mod cumulative;
pub mod diffn;
pub mod disjunctive;
pub mod dominance_cut;
pub mod element;
pub mod domain;
pub mod equality;
pub mod float_ops;
pub mod forbidden;
pub mod gcc;
pub mod int_abs;
pub mod int_div;
pub mod int_minmax;
pub mod int_mod;
pub mod int_times;
pub mod inverse;
pub mod less_equal;
pub mod less_than;
pub mod linear_eq;
pub mod linear_scalar;
pub mod matching;
pub mod nogood;
pub mod not_equal_offset;
pub mod regular;
pub mod reified;
pub mod scheduling;
pub mod set_card;
pub mod set_card_eq;
pub mod set_diff;
pub mod set_domain;
pub mod set_eq;
pub mod set_in;
pub mod solutions;

pub use domain::VariableId;
pub use scheduling::{
    build_time_table, detect_overload, ect, est, find_excess_time, find_overload_time, interval_horizon,
    lct, lst, mandatory_interval, mandatory_literals_at_time, MandatoryContribution, MandatoryInterval,
    TaskSpec, TimePoint,
};
