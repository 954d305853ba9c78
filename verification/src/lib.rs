//! A data structure that efficiently stores and retrieves ASCII strings, mapping each
//! string to a `usize` value, together with the byte-level encodings it is built from:
//! variable-length integers, perfect byte hash maps and length-prefixed vectors.

use vstd::prelude::*;

pub mod ascii;
pub mod builder;
pub mod builder3;
pub mod builder6;
pub mod calendar;
pub mod byte_phf;
pub mod bytestr;
pub mod const_builder;
pub mod const_util;
pub mod decimal;
pub mod error;
pub mod lookup;
pub mod lookup6;
pub mod offsets;
pub mod path;
pub mod phf_cache;
pub mod reader3;
pub mod reader;
pub mod reader6;
pub mod represents;
pub mod line_break;
pub mod litemap;
pub mod store;
pub mod supported;
pub mod trie;
pub mod tstore;
pub mod ule;
pub mod varint;
pub mod varinta;
pub mod varintb;
pub mod varintx;
pub mod varzerovec;
pub mod zerotrie;
