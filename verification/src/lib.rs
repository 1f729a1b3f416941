//! The value layer of a perl runtime: byte strings with their UTF-8 flag, the classification lattice that certifies
//! what is known of their bytes, the compact storage forms, scalars, arrays and hashes.
pub mod array;
pub mod bucket_table;
pub mod classify;
pub mod compare;
pub mod containers;
pub mod content_debug;
pub mod cow_buffer;
pub mod decode;
pub mod digest;
pub mod display;
pub mod encoding_order;
pub mod entries;
pub mod flags;
pub mod hash;
pub mod hex;
pub mod immutable_hash;
pub mod inline_form;
pub mod key_tree;
pub mod latin1;
pub mod nibble;
pub mod numeric_text;
pub mod order;
pub mod ordered_hash;
pub mod ordered_map;
pub mod packed;
pub mod perl_hash;
pub mod perl_string;
pub mod scalar;
pub mod scan;
pub mod slot_tree;
pub mod storage;
pub mod string;
pub mod text;
pub mod transition;
pub mod utf8;
pub mod uuid;
pub mod value;
pub mod warning;
