//! Engine of a radial disk-usage viewer: a cancelable model scanner, an
//! incrementally built scan cache, a capped snapshot materializer, a
//! fixed-point sunburst layout, a polar hit tester, and a drill-down
//! navigation stack. Geometry is carried in integer angle units (nanoradians)
//! and integer radii; a front end converts to and from screen coordinates.

pub mod entry;

pub mod cache;

pub mod worker;

pub mod scan;

pub mod materialize;

pub mod layout;

pub mod hittest;

pub mod nav;

pub mod chart;
