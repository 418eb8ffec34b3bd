//! Digest log codec: an ordered log of tagged digest items attached to a
//! block header, with a compact binary wire format (tag byte followed by the
//! payload), a borrowing projection used for zero-copy encoding, and a
//! `0x`-prefixed hex interchange form.

pub mod codec;
pub mod digest;
pub mod item;
pub mod text;
