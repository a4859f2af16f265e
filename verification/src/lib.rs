//! Layout geometry, transistor extraction and switch-level simulation for
//! GDS-II chip layouts.
//!
//! A stream is read ([`reader`]) into a library of structures, whose hierarchy
//! is flattened ([`hierarchy`], [`paths`]) into polygons. Their nets
//! ([`geometry`]) and transistors ([`transistors`]) are extracted under a
//! technology ([`tech`]), and the circuit is simulated ([`sim`]). A viewport
//! draws the layout and finds what is under a click ([`viewport`]);
//! [`session`] keeps all of it. [`celllib`] generates layouts from netlists.
//!
//! The other modules state laws that hold of these parts. [`segments`],
//! [`areas`] and [`rectangles`] say what the geometry of points and rings
//! means, [`touching`] which polygons share a net, [`placing`] where the
//! polygons of a hierarchy come to lie, [`scenes`] what is drawn and clicked,
//! [`devices`] where transistors are and what their terminals are on,
//! [`driving`], [`settling`], [`symmetry`] and [`unknowns`] which levels a
//! circuit takes, and [`roundtrip`] that a generated layout reads back as its
//! netlist.

pub mod areas;
pub mod celllib;
pub mod devices;
pub mod driving;
pub mod gds;
pub mod geometry;
pub mod graph;
pub mod hierarchy;
pub mod paths;
pub mod placing;
pub mod reader;
pub mod rectangles;
pub mod roundtrip;
pub mod scenes;
pub mod segments;
pub mod session;
pub mod settling;
pub mod sim;
pub mod stream;
pub mod symmetry;
pub mod tech;
pub mod text;
pub mod touching;
pub mod transistors;
pub mod unionfind;
pub mod unknowns;
pub mod viewport;
