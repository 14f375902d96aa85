//! The verified core of the GTK 4 backend of WaterUI.
//!
//! The toolkit draws and allocates widgets, and the layout engine decides where
//! they go. What stands between the two is here: which questions are put to
//! which of them and in which order, how an answer is carried through hosts and
//! margins, which packet is in force where, and what the state of a component
//! becomes when something happens to it. No function of this library calls the
//! toolkit or the engine. It says what to ask next, and goes on from the answer.
//!
//! Lengths are IEEE 754 numbers, held by their bits in [`single::Single`] and
//! [`double::Double`], so that contracts can say exactly what they round to.

pub mod components;
pub mod double;
pub mod geometry;
pub mod layout;
mod rounding;
pub mod single;
pub mod text;
