//! Resource-flow production scheduling: the stock model, the search
//! strategies that explore it, and the replay check of a schedule.

pub mod a_star;
pub mod aco;
pub mod annealing;
pub mod budget;
pub mod chance;
pub mod dijkstra;
pub mod genetic;
pub mod ida_star;
pub mod ledger;
pub mod lexer;
pub mod model;
pub mod parser;
pub mod replay;
pub mod run;
pub mod search;
pub mod sgs;
pub mod stock_scores;
pub mod stocks;
pub mod tabu;
pub mod text;
pub mod tokens;
pub mod trace;
