//! Abstract syntax: the De Bruijn indexed core language and the named
//! surface language with its resolver.

pub mod debruijn;
pub mod parse;
