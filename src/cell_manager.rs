pub mod cell_map;
pub mod flat_cells;
pub mod chunk_cells;
pub mod cell_backend;
pub mod neighbourhood;
pub mod cellmanager;

pub use cell_map::GridError;
pub use cell_backend::CellBackend;
pub use chunk_cells::ChunkedCellManager;
pub use flat_cells::FlatCellManager;
pub use neighbourhood::Neighborhood;
pub mod laws;
