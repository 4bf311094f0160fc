//! Decision-diagram building blocks: complemented-edge node handles,
//! exact arbitrary-precision counters, operation caches, level queues,
//! variable-interaction and linear-transform matrices, and the
//! multi-way group tree used to constrain variable reordering.

pub mod apa;
pub mod apa_order;
pub mod count_apa;
pub mod decimal;
pub mod node;
pub mod mtr;
pub mod computed_table;
pub mod interact;
pub mod interact_build;
pub mod reorder_linear;
pub mod level_queue;
pub mod local_cache;
pub mod hooks;
pub mod error;
pub mod bdd_clause;
pub mod add;
pub mod reorder;
pub mod perm_check;
pub mod dd_verify;
pub mod manager;
pub mod canon;
pub mod dag_count;
pub mod rng;
pub mod genetic;
pub mod scan;
pub mod varint;
pub mod dddmp;
pub mod dump_law;
pub mod dump_order;
pub mod cnf_law;
pub mod binary_law;
pub mod export;
pub mod harwell;

pub use add::{AddMonadicOp, AddOp};
pub use apa::ApInt;
pub use bdd_clause::Literal;
pub use error::{DdError, DdResult};
pub use level_queue::LevelQueue;
pub use local_cache::LocalCache;
pub use mtr::{GroupFlags, MtrNode, MtrTree};
pub use node::NodeId;
pub use reorder::{ClipDirection, ExtReorderMethod, ReorderingMethod, VarGroup};
