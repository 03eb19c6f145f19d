pub mod complexity;
pub mod coverage;
pub mod laws;
pub mod paths;
pub mod lcov;
pub mod sources;
pub mod text;
