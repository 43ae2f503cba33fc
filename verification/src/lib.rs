//! Exact cover by dancing links: the sparse matrix of circular rings, the
//! `cover` and `uncover` steps that take a column out and put it back
//! exactly as it was, and the search that finds every exact cover; beside
//! it the plain solver on the dense matrix, and a collection of smaller
//! exercises on lists, piles of cards, squares and arrangements.

#![allow(non_snake_case)]

pub mod cards;
pub mod completeness;
pub mod construct;
pub mod cover;
pub mod dancing_links;
pub mod dense;
pub mod exact_cover;
pub mod horn;
pub mod langford;
pub mod latin_squares;
pub mod links;
pub mod llist;
pub mod mat;
pub mod n_tuples;
pub mod search;
pub mod sets;
pub mod text;
pub mod util;
pub mod words;
