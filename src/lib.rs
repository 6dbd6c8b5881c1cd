//! A multi-topology cellular-automaton grid: dense and sparse cell stores,
//! neighbourhood tables for square, hexagonal, triangular and rhombic tilings,
//! and a manager that ties them together.
pub mod cell_manager;


pub use cell_manager::cellmanager::CellManager;
