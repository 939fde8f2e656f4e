//! Splits a markup document that embeds script and style bodies into an
//! ordered sequence of byte ranges, each tagged with the language it holds.

pub mod regions;
pub mod html_fast;
