//! The core of a raster-to-vector tracer: from a monochrome bitmap to the
//! integer polygons of its outlines or centerlines, and the bookkeeping
//! that drives simplifying those polygons and fitting curves to them.
//!
//! * [`polys_from_raster_outline`] traces the boundaries of filled regions,
//!   [`outline_laws`] shows that every boundary edge is walked exactly once.
//! * [`image_skeletonize`] thins strokes and [`polys_from_raster_centerline`]
//!   walks the thinned lines.
//! * [`min_heap`] is the priority queue with stable handles that the passes
//!   over a polygon use, [`keyed_heap`] keeps one candidate per knot or edge
//!   in it.
//! * [`curve_fit_nd`] holds the knots of a curve and their links,
//!   [`curve_fit_passes`] the steps of the passes that remove, move and
//!   re-insert knots; [`polys_simplify_collapse`] holds the edges of a
//!   polygon that is simplified by collapsing edges.
//! * [`image_load`] and [`image_load_ppm`] decide what an image file holds,
//!   [`argparse`] matches command-line arguments.
//!
//! The numbers of curve fitting (positions, tangents, errors) are real-valued
//! and are left to the caller, who feeds the passes with costs and applies
//! what they decide.

pub mod argparse;
pub mod curve_fit_nd;
pub mod curve_fit_passes;
pub mod dir;
pub mod image_load;
pub mod image_load_ppm;
pub mod image_skeletonize;
pub mod keyed_heap;
pub mod min_heap;
pub mod outline_laws;
pub mod polys_from_raster_centerline;
pub mod polys_from_raster_outline;
pub mod polys_simplify_collapse;
pub mod raster;
