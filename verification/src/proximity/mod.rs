//! The proximity heuristic: the cascade's last layer, which needs no
//! model. It finds candidate values in a text (numbers, booleans, quoted
//! or bare strings), finds anchor positions for each schema field (where
//! its name or description words occur), and pairs fields with values
//! greedily by distance.

pub mod words;
pub mod values;
pub mod anchors;
pub mod assign;
pub mod scoring;
pub mod heuristic;
pub mod laws;
