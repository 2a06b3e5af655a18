//! Lzip compression and decompression.
//!
//! The crate holds a complete codec for the lzip container format: CRC-32,
//! the adaptive bit models, the LZMA range coder, the LZMA literal and match
//! coding, a fast and an optimizing match finder, member framing, and the
//! pull-style streaming handles built on them.  The functions are verified;
//! contracts are stated over the mathematical models defined next to the
//! code they describe.  The one thing taken on trust is the capacity that a
//! vector reports, in `mem`.
//!
//! That a stream decodes to the data it was made from is proved, whichever
//! operations the encoder chooses: the encoder holds every operation
//! against the data before it codes it.  How well the data is compressed is
//! a matter of the choice, and is not stated.
//!
//! The laws of the codec stand in the modules whose names end in `_laws`:
//! the round trip of the range coder, of the operations and of whole
//! members, and the agreement of the streaming decoder with the decoding of
//! a whole member.

pub mod bit_model;
pub mod bt_matchfinder;
pub mod buffer;
pub mod bufread;
pub mod cbuffer;
pub mod crc;
pub mod decoder;
pub mod decoder_laws;
pub mod encoder;
pub mod errno;
pub mod header;
pub mod input_laws;
pub mod lz_decoder;
pub mod lz_encoder;
pub mod lzma;
pub mod matchfinder;
pub mod mem;
pub mod member;
pub mod member_laws;
pub mod op_decoder;
pub mod op_encoder;
pub mod op_laws;
pub mod optimizer;
pub mod prices;
pub mod range_decoder;
pub mod range_encoder;
pub mod range_laws;
pub mod stream_laws;
pub mod tree_laws;
pub mod version;
pub mod window;
