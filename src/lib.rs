pub mod configs;
pub mod graph;
pub mod modal_config;
pub mod model;
pub mod node;
pub mod parser;
pub mod rules;
pub mod search;
pub mod tableau;
pub mod text;
pub mod world;

pub use configs::Config;
pub use graph::Graph;
pub use modal_config::ModalOptions;
pub use node::{Formula, FormulaState, World};
pub use parser::{Instructions, parse_formula};
pub use search::GraphSearch;
pub use tableau::Tableau;
pub use world::WorldGraph;
pub use model::{Countermodel, CountermodelWorld, Model, Outcome};
pub use rules::{Rule, atom, rule_for, surplus_operands};
