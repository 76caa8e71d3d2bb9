//! A binary-search variant over a container of weighted elements, whose search
//! window is widened now and then by a random perturbation, and which averages
//! the weights of the two elements at the window's ends on every step.

mod random;

pub mod container;
pub mod search;
