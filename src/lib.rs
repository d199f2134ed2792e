//! Core of a small wireframe engine: coordinate axes and a verified reader
//! for the text form of triangle meshes (a subset of Wavefront OBJ).
pub mod axis;
pub mod obj;
