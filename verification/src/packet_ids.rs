//! Packet ids of the Bedrock protocol that the translation steps touch.
use vstd::prelude::*;

verus! {

pub const DISCONNECT: u16 = 5;
pub const RESOURCE_PACKS_INFO: u16 = 6;
pub const RESOURCE_PACK_STACK: u16 = 7;
pub const RESOURCE_PACK_CLIENT_RESPONSE: u16 = 8;
pub const START_GAME: u16 = 11;
pub const SERVER_PLAYER_POST_MOVE_POSITION: u16 = 16;
pub const MOVE_PLAYER: u16 = 19;
pub const ADD_PLAYER: u16 = 12;
pub const ADD_ACTOR: u16 = 13;
pub const ADD_ITEM_ACTOR: u16 = 15;
pub const TILE_EVENT: u16 = 26;
pub const ACTOR_EVENT: u16 = 27;
pub const MOB_EFFECT: u16 = 28;
pub const INVENTORY_TRANSACTION: u16 = 30;
pub const INTERACT: u16 = 33;
pub const SET_ACTOR_DATA: u16 = 39;
pub const SET_SPAWN_POSITION: u16 = 43;
pub const ANIMATE: u16 = 44;
pub const LEVEL_CHUNK: u16 = 58;
pub const LEGACY_TELEMETRY_EVENT: u16 = 65;
pub const PLAYER_LIST: u16 = 63;
pub const MAP_DATA: u16 = 67;
pub const BOSS_EVENT: u16 = 74;
pub const TRANSFER: u16 = 85;
pub const PLAY_SOUND: u16 = 86;
pub const STRUCTURE_BLOCK_UPDATE: u16 = 90;
pub const PLAYER_SKIN: u16 = 93;
pub const SET_SCORE: u16 = 108;
pub const MOVE_ACTOR_DELTA: u16 = 111;
pub const SET_SCOREBOARD_IDENTITY: u16 = 112;
pub const BIOME_DEFINITION_LIST: u16 = 122;
pub const LEVEL_SOUND_EVENT: u16 = 123;
pub const CLIENT_CACHE_STATUS: u16 = 129;
pub const CLIENT_CACHE_BLOB_STATUS: u16 = 135;
pub const ANVIL_DAMAGE: u16 = 141;
pub const PLAYER_AUTH_INPUT: u16 = 144;
pub const PLAYER_ENCHANT_OPTIONS: u16 = 146;
pub const ITEM_STACK_RESPONSE: u16 = 148;
pub const SUB_CHUNK: u16 = 174;
pub const SUB_CHUNK_REQUEST: u16 = 175;
pub const DIMENSION_DATA: u16 = 180;
pub const SERVERBOUND_DIAGNOSTICS: u16 = 315;
pub const CLIENT_MOVEMENT_PREDICTION_SYNC: u16 = 322;
pub const UPDATE_CLIENT_OPTIONS: u16 = 323;
pub const PLAYER_LOCATION: u16 = 326;
pub const SERVER_SCRIPT_DEBUG_DRAWER: u16 = 328;

} // verus!
