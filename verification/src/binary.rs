//! Concealment and extraction of binary messages through bit patterns.
//!
//! A [`Carrier`] conceals a payload in cover data, and a [`Package`]
//! reveals the message that package data holds. Both go by a *bit pattern*:
//! a function that takes the index of a byte and returns the mask of the
//! bits that carry the message in the byte at that index, or `None` once
//! the pattern has come to its end. The bits of the message take the places
//! that the masks select, byte after byte of the cover and, within a byte,
//! from the least significant selected bit up.
//!
//! The pattern is the key to a package, and sender and receiver share it.
//! The receiver also has to know where the message ends: by its length, by
//! a length that the sender conceals before the message, or by the end of
//! the pattern.
//!
//! It is for the sender to see that the cover has room for the message. A
//! payload without a declared length that finds no room is cut short in
//! silence where the cut falls between two of its bytes or within its last
//! byte. Every other payload that finds no room is an error, and so is every
//! payload that is to go into an empty cover.
//!
//! # Examples
//!
//! Concealing a message behind its length, and revealing it:
//!
//! ```
//! use asbs::binary::{Carrier, Package, Sink};
//! use asbs::{Conceal, Reveal};
//!
//! let pattern = |i: usize| Some(1u8 << (i % 3));
//! let payload = b"a very secret message";
//! let cover = [0u8; 512];
//!
//! let mut package = Sink::new();
//! Carrier::with_embedded_len(payload.len(), pattern, &mut package)
//!     .conceal(payload.as_slice(), cover.as_slice())
//!     .unwrap();
//!
//! let mut message = Sink::new();
//! Package::with_embedded_len(pattern, package.as_slice())
//!     .reveal_into(&mut message)
//!     .unwrap();
//!
//! assert_eq!(*payload, *message.as_slice());
//! ```
//!
//! # Contracts
//!
//! What a pattern answers is not known before it is asked. The contracts of
//! [`Carrier`] and [`Package`] therefore speak of every sequence of masks
//! that the pattern [follows](pattern::follows): whatever the pattern
//! answers, the package is the one that [`model`] describes for those
//! answers. The [`laws`] say what holds of these descriptions together.

pub mod bits;
pub mod carrier;
pub mod laws;
pub mod lemmas;
pub mod model;
pub mod package;
pub mod pattern;
pub mod sink;

pub use carrier::Carrier;
pub use package::{Package, PayloadLength};
pub use sink::Sink;
