pub mod cdt;
pub mod cdt_build;
pub mod cdt_insert;
pub mod determinism;
pub mod delaunay;
pub mod groups;
pub mod keys;
pub mod locate;
pub mod polygon;
pub mod polygon_build;
pub mod topology;
pub mod topology_check;
pub mod union_find;
pub mod voronoi;
pub mod voronoi_check;
