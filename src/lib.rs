//! Maps the faces of a twenty-sided die onto the faces of an N-sided die,
//! then skews the mapping toward one end ("Sleight of Hand") without ever
//! letting a higher d20 face land on a lower dice face.

pub mod partition;
pub mod character;
pub mod laws;
pub mod text;
