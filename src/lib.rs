//! XDR (RFC 4506) runtime encoding and decoding.
//!
//! Values are packed into a byte buffer and unpacked from a byte slice. The
//! `Pack` and `Unpack` traits state the exact wire encoding of every value,
//! and the helper functions build fixed-size, length-limited and opaque
//! encodings on top of them.

mod array;
mod codec;
mod error;
mod laws;
mod opaque;
mod wire;

pub use array::{all_packable, counted_encoding, elems_decodable, elems_decode, elems_pos, elems_rejects, encodings, flex_body_len, flex_decodable, flex_decoded_len, flex_decodes, flex_rejects, pack_array, pack_flex, unpack_array, unpack_flex, within};
pub use codec::{pack, unpack, Pack, Unpack};
pub use error::Error;
pub use laws::{law_aligned, law_bool_injective, law_bool_round_trip, law_i32_round_trip, law_i64_round_trip, law_opaque_round_trip, law_option_round_trip, law_string_round_trip, law_u32_round_trip, law_u64_round_trip, law_usize_round_trip, law_vec_round_trip, law_i32_injective, law_i64_injective, law_opaque_injective, law_padding_range, law_string_injective, law_u32_injective, law_u64_injective};
pub use opaque::{fixed_opaque_encoding, opaque_encoding, opaque_fits, pack_opaque_array, pack_opaque_flex, pack_string, unpack_opaque_array, unpack_opaque_flex, unpack_string, Opaque};
pub use wire::{pad_len, padding, zeros, be32, be32_value, be64, be64_value};
