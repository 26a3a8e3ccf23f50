//! A small engine that evaluates a graph of named formulas.
//!
//! Each node of the graph pairs a name with an expression; an expression may
//! reference one other node by name, compare values, read a field of an
//! object, or carry the outcome of an externally resolved network request.
//! The engine computes a value (or an error) for every node, detects
//! reference cycles, and isolates per-node failures so that one bad formula
//! never poisons the rest of the evaluation.

pub mod evaluate;
pub mod hash;
pub mod model;
pub mod sequence;
pub mod text;
pub mod types;

pub use evaluate::Evaluator;
pub use evaluate::NamedExpression;
pub use evaluate::NamedExpressions;
pub use evaluate::NodeResult;
pub use model::ExprModel;
pub use model::NodeModel;
pub use model::RespModel;
pub use model::ValueModel;
pub use sequence::Sequence;
pub use text::Text;
pub use text::TextOrder;
pub use types::EvaluationError;
pub use types::Expression;
pub use types::Node;
pub use types::Object;
pub use types::ObjectField;
pub use types::Response;
pub use types::Value;
