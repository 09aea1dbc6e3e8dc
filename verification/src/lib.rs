//! Pulsar Network: the peer-to-peer message layer of the Astreum blockchain.
//!
//! The wire formats (chains, routes, topics, kinds, messages, envelopes),
//! the proof-of-work stamping of messages, the routing tables and the
//! decisions a node takes on each datagram are verified here; sockets,
//! threads and the clock loop live with the caller.
mod error;
mod chain;
mod route;
mod topic;
mod kind;
mod natural;
mod astro;
mod crypto;
mod clock;
mod message;
mod envelope;
mod table;
mod routing;
mod peer;
pub mod peers;
mod config;
pub mod client;
mod network;

pub use error::Error;
pub use chain::{Chain, lemma_chain_roundtrip, lemma_chain_byte_unique};
pub use route::{Route, lemma_route_roundtrip, lemma_route_byte_unique};
pub use topic::{Topic, lemma_topic_roundtrip, lemma_topic_byte_unique};
pub use kind::{Kind, lemma_kind_roundtrip, lemma_kind_byte_unique};
pub use natural::{Natural, bits_value, canonical, nat_bits, low_bits, bytes_bits, strip_zeros, spec_from_bytes, bits_bytes, bits_less, decimal_value, canonical_decimal, u64_be_bytes, zeros, byte_pad, lemma_natural_bytes_roundtrip, drop_last_bit, last_bit, xor_bits, lemma_xor_len, lemma_strip_nonempty, lemma_nat_bits, be_value, lemma_u64_bits, lemma_canonical_less, bit_of, lemma_xor_value_bits, lemma_from_bytes_value};
pub use astro::{Framing, le_min, le_value, array_frame, frames, list_encoding, first_zero, prepend, read_from, read_list, frame_safe, pow256, vec_views, list_overruns, lemma_list_roundtrip};
pub use crypto::{blake3_digest, merkle_pairs, merkle_top, merkle_root_of, hash_views, lemma_merkle_pairs_len, lemma_five_leaf_root};
pub use message::{Message, MessageView, nonce_after, stamped_from, unstamped, parse_message, message_parse_panics, lemma_message_roundtrip, lemma_stamped_message_valid, lemma_message_valid_window, lemma_message_hash_tree, lemma_message_hash_ignores_topic};
pub use envelope::{Envelope, EnvelopeView, envelope_lifetime, envelope_stamped_from, envelope_unstamped, envelope_from_fields, read_envelope, parse_envelope, envelope_parse_panics, lemma_envelope_roundtrip, lemma_stamped_envelope_fresh, lemma_envelope_fresh_window, lemma_envelope_hash_tree, lemma_stamped_envelope_reads_back, lemma_envelope_hash_ignores_time_and_route};
pub use table::{Table, entry_lookup, entry_store, lookup, store, keys_unique, bucket_or_empty, bucket_get, bucket_put};
pub use routing::{bit_chars, binary_string, prefix_key, has_room, slot_ok, first_slot, placed, first_free_insert, walk_in_bounds, single_entry_buckets, lemma_buckets_stay_single, buckets_within, lemma_filing_keeps_cap, lemma_filing_holds_peer};
pub use crypto::{x25519_shared_key, x25519_public, chacha_open, sealable};
pub use peer::{Peer, peer_bucket_cap};
pub use config::Config;
pub use network::{Network, Connection, sealed_envelope, sealed_for_each, Bootstrap, PeerEntry, greeting, first_peer_addresses, every_bucket_has_first, peer_addresses, same_route};
