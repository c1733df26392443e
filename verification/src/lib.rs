//! Durable state, relay authority and route lifecycle rules of a messaging node.

pub mod archive;
pub mod archive_back;
pub mod archive_check;
pub mod archive_extent;
pub mod archive_format;
pub mod archive_frame;
pub mod archive_item;
pub mod archive_law;
pub mod archive_sound;
pub mod archive_strings;
pub mod archive_versions;
pub mod archive_write;
pub mod bytes;
pub mod channel_route;
pub mod codec;
pub mod error;
pub mod grammar;
pub mod legacy;
pub mod legacy_strings;
pub mod model;
pub mod node_state;
pub mod owner_aliases;
pub mod owner_law;
pub mod owner_record;
pub mod owner_restore;
pub mod owner_state;
pub mod peer_session;
pub mod presence;
pub mod profile;
pub mod push;
pub mod received;
pub mod record;
pub mod relay_cells;
pub mod relay_service;
pub mod reopen;
pub mod restart_channel;
pub mod restart_direct;
pub mod restart_law;
pub mod restore;
pub mod restore_law;
pub mod restore_state;
pub mod retained;
pub mod revive;
pub mod revive_channel;
pub mod route_law;
pub mod route_work;
pub mod routing;
pub mod seal;
pub mod sealed_law;
pub mod sealed_parts;
pub mod startup;
pub mod state_law;
pub mod strings;
pub mod strings_law;
pub mod table;
pub mod time;
pub mod write_law;
