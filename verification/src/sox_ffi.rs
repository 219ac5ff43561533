//! Opaque libSoX handle types of the in-process SoX backend. Values of
//! these types are only ever handled behind pointers that libSoX returns.

use vstd::prelude::*;

verus! {

/// Out-of-band data of a SoX format (never built here; passed as null).
#[allow(non_camel_case_types)]
pub struct sox_oob_t {
    _opaque: [u8; 0],
}

/// A SoX effect handler, as `sox_find_effect` returns it.
#[allow(non_camel_case_types)]
pub struct sox_effect_handler_t {
    _opaque: [u8; 0],
}

/// A SoX effect, as `sox_create_effect` returns it.
#[allow(non_camel_case_types)]
pub struct sox_effect_t {
    _opaque: [u8; 0],
}

/// A SoX effects chain, as `sox_create_effects_chain` returns it.
#[allow(non_camel_case_types)]
pub struct sox_effects_chain_t {
    _opaque: [u8; 0],
}

} // verus!
