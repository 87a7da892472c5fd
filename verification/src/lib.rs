//! The GC survivors profiler of Dr-Dotnet, as a verified library.
//!
//! After a garbage collection that the profiler induced, it groups the
//! objects that the GC roots reference by class, drills through what those
//! objects reference down to a maximum depth, keeps the branches that retain
//! enough objects and bytes, sorts them, and writes an HTML report.
//!
//! - `references`: the objects of a node, with their sizes and summary line.
//! - `tree`: the retention tree, inclusive values and sorting.
//! - `heap`: what the runtime reported of the heap's objects.
//! - `profiler`: tree building, the report, and the profiler's callbacks.
//! - `report`: the lines of a report and the text written out.
//! - `parameters`: reading a session's parameters.
//! - `format`: decimal numbers, digit grouping and HTML escaping.
//! - `laws`: properties of the above, proved.

pub mod format;
pub mod heap;
pub mod laws;
pub mod parameters;
pub mod profiler;
pub mod references;
pub mod report;
pub mod tree;
