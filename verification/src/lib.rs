//! Verified structural core of a time-domain circuit simulator.
//!
//! The crate owns everything about a simulation that is decided by integers,
//! bytes and text: the compressed-row sparsity pattern of the nodal matrix,
//! the packed per-type component stores, the order in which component types
//! stamp, and the reading of netlists. Scalars are carried as IEEE-754 words
//! and are never interpreted here; arithmetic on them belongs to the caller.

pub mod buffer;
pub mod builder;
pub mod circuit;
pub mod component;
pub mod error;
pub mod expression;
pub mod number;
pub mod numerical;
pub mod parser;
pub mod plan;
pub mod printing;
pub mod si;
pub mod store;
pub mod text;

pub use buffer::ComponentBuffer;
pub use builder::{CircuitBuilder, Layout};
pub use circuit::{Action, Circuit, Locator};
pub use component::{
    ComponentError, ComponentKind, ComponentLibrary, Ground, MissingRequiredParameter,
};
pub use error::CircuitError;
pub use expression::{
    apply_precedence, parse_expr, precedence, reorder_binop, take_binop, take_operand,
    take_operator, take_whitespace, BinaryOperator, Expression, ExpressionError,
};
pub use numerical::complex::c64;
pub use numerical::equations::LinearEquations;
pub use parser::{
    parse_command, parse_commands, parse_identifier, parse_quoted, Command, CommandError,
    NetlistError,
};
pub use printing::{
    cell_is_plain, continuous_segments, grid_is_plain, print_table, render, row_is_plain,
    table_cells,
};
pub use plan::{plan_command, quantity_of, PlanError, PlanFault, Planned, Quantity};
pub use si::{parse_si_number, si_exponent, var_to_si_unit};
pub use store::{ComponentType, Components};
