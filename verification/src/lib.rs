//! UUID remapping for Minecraft world saves: the verified core.
pub mod uuid_bits;
pub mod map;
pub mod rows;
pub mod text;
pub mod uuid_text;
pub mod swap;
pub mod nbt;
pub mod swapper;
pub mod content;
pub mod nbt_file;
pub mod files;
pub mod world;
pub mod export;
pub mod players;
pub mod args;
pub mod one_way;
pub mod chunk;
pub mod nbt_laws;
pub mod nbt_io;
pub mod region_nbt;
pub mod nbt_scan;
pub mod nbt_write;
pub mod nbt_encode;
