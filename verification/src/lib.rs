//! Maximum-likelihood trait estimation for the two-parameter logistic
//! response model, by bounded bisection.
//!
//! The estimator looks for the trait value in `[-1, 1]` at which the
//! log-likelihood gradient of a subject's responses crosses zero. Every
//! interval endpoint the bisection ever visits is an integer multiple of
//! 2^-21, so the search state is held here in exact fixed-point form and
//! the whole search logic is verified. Evaluating the gradient itself is
//! floating-point work that stays with the caller: a search asks for the
//! gradient's sign relative to the convergence threshold at one midpoint
//! at a time, either step by step through [`search::Bisection`] or for
//! whole searches through [`runs::search_with`] and
//! [`runs::estimate_each`].

pub mod dims;
pub mod runs;
pub mod search;
