//! The packet rewrites that translation steps register, and what each does
//! to a packet body.
use vstd::prelude::*;
use crate::codec::DecodeError;
use crate::connection::{after_note, texts};
use crate::direction::Direction;
use crate::rewriter::{spec_actor_event, spec_level_sound_event, ActorEventRewriter, SoundRewriter};
use crate::steps::v860_v898;
use crate::steps::v924_v944;
use crate::steps::v944_v975;
use crate::steps::v975_v1001;
use crate::steps::v1001_v2168;
use crate::steps::sub_chunk::{self, SubChunkShape};
use crate::steps::set_score_v2168;
use crate::steps::player_list_v2168;
use crate::steps::item_stack_v2168;
use crate::steps::inventory_v2168;
use crate::sound_events::SoundTable;
use crate::wrapper::{PacketWrapper, WireState};

verus! {

/// A rewrite of one kind of packet body.
#[derive(Debug, Clone, Copy, PartialEq, Eq)]
pub enum Handler {
    /// ActorEvent ids across a block of inserted ids.
    ActorEvent(ActorEventRewriter, Direction),
    /// LevelSoundEvent ids across a block of inserted ids.
    LevelSoundEvent(SoundRewriter, Direction),
    MobEffectAddAmbient,
    MobEffectDropAmbient,
    AnimateAddData,
    AnimateDropData,
    InteractAddPosition,
    InteractDropPosition,
    ResourcePackStackAddName,
    ResourcePackStackDropName,
    TelemetryWidenType,
    TelemetryNarrowType,
    SpawnPositionToSigned,
    SpawnPositionToUnsigned,
    /// TileEvent; the flag says whether note instruments move up.
    TileEvent(bool),
    /// The protocol 944/975 rewrites; the flag says whether toward 975.
    PlaySound(bool),
    ActorEventTrailing(bool),
    LevelSoundEventTrailing(bool),
    PartyChanged(bool),
    UpdateClientOptions(bool),
    ClientMovementPredictionSync(bool),
    /// The protocol 975/1001 rewrites; the flag says whether toward 1001.
    BossEvent(bool),
    LevelChunkCap(bool),
    SubChunkRequest(bool),
    ClientCacheBlobStatus(bool),
    ClientCacheStatusOff,
    DiagnosticsTrim,
    BiomeDefinitionList,
    /// LevelSoundEvent between sound numbers and sound names.
    SoundName(bool),
    /// The protocol 1001/2168 rewrites; the flag says whether toward 2168.
    MoveDeltaActor(bool),
    MovePlayer(bool),
    FullChunkData(bool),
    DimensionData(bool),
    Transfer(bool),
    AnvilDamage(bool),
    ResourcePacksInfo(bool),
    ServerboundDiagnostics(bool),
    PlayerAuthInput(bool),
    ResourcePackClientResponse(bool),
    StructureBlockUpdate(bool),
    /// PlaySound, with the loop count written toward 2168.
    PlaySoundLoops(bool, i32),
    /// SubChunk, in the shape sent to protocol 2168.
    SubChunk(bool, SubChunkShape),
    /// SetScore, or with the second flag SetScoreboardIdentity; the third
    /// says whether their translation is switched on.
    SetScore(bool, bool, bool),
    PlayerList(bool),
    /// PlayerEnchantOptions, toward 975 or not.
    PlayerEnchantOptions(bool),
    /// ItemStackResponse, toward 2168 or not.
    ItemStackResponse(bool),
    /// InventoryTransaction between protocols 1001 and 2168.
    InventoryTransaction,
}

/// The id shifts a handler carries stay within the id range.
pub open spec fn handler_wf(h: Handler) -> bool {
    match h {
        Handler::ActorEvent(rw, _) => rw.shift.wf(),
        Handler::LevelSoundEvent(rw, _) => rw.shift.wf(),
        _ => true,
    }
}

/// What handler `h` does to a packet being rewritten.
pub open spec fn spec_apply(h: Handler, st: WireState, sounds: Seq<(u32, Seq<char>)>) -> Option<WireState> {
    match h {
        Handler::ActorEvent(rw, d) => spec_actor_event(rw, d, st),
        Handler::LevelSoundEvent(rw, d) => spec_level_sound_event(rw, d, st),
        Handler::MobEffectAddAmbient => v860_v898::spec_mob_effect_add_ambient(st),
        Handler::MobEffectDropAmbient => v860_v898::spec_mob_effect_drop_ambient(st),
        Handler::AnimateAddData => v860_v898::spec_animate_add_data(st),
        Handler::AnimateDropData => v860_v898::spec_animate_drop_data(st),
        Handler::InteractAddPosition => v860_v898::spec_interact(st, true),
        Handler::InteractDropPosition => v860_v898::spec_interact(st, false),
        Handler::ResourcePackStackAddName => v860_v898::spec_resource_pack_stack_add_name(st),
        Handler::ResourcePackStackDropName => v860_v898::spec_resource_pack_stack_drop_name(st),
        Handler::TelemetryWidenType => v860_v898::spec_telemetry_widen_type(st),
        Handler::TelemetryNarrowType => v860_v898::spec_telemetry_narrow_type(st),
        Handler::SpawnPositionToSigned => v924_v944::spec_spawn_position_to_signed(st),
        Handler::SpawnPositionToUnsigned => v924_v944::spec_spawn_position_to_unsigned(st),
        Handler::TileEvent(up) => v924_v944::spec_tile_event_remap(st, up),
        Handler::PlaySound(to) => v944_v975::spec_play_sound(st, to),
        Handler::ActorEventTrailing(to) => v944_v975::spec_actor_event(st, to),
        Handler::LevelSoundEventTrailing(to) => v944_v975::spec_level_sound_event(st, to),
        Handler::PartyChanged(to) => v944_v975::spec_party_changed(st, to),
        Handler::UpdateClientOptions(to) => v944_v975::spec_update_client_options(st, to),
        Handler::ClientMovementPredictionSync(to) => v944_v975::spec_client_movement_prediction_sync(st, to),
        Handler::BossEvent(to) => v975_v1001::spec_boss_event(st, to),
        Handler::LevelChunkCap(to) => v975_v1001::spec_level_chunk(st, to),
        Handler::SubChunkRequest(to) => v975_v1001::spec_sub_chunk_request(st, to),
        Handler::ClientCacheBlobStatus(to) => v975_v1001::spec_client_cache_blob_status(st, to),
        Handler::ClientCacheStatusOff => v975_v1001::spec_client_cache_status(st),
        Handler::DiagnosticsTrim => v975_v1001::spec_diagnostics(st),
        Handler::BiomeDefinitionList => v975_v1001::spec_biome_definition_list(st),
        Handler::SoundName(to) => v975_v1001::spec_level_sound_event(st, sounds, to),
        Handler::MoveDeltaActor(to) => v1001_v2168::spec_move_delta_actor(st, to),
        Handler::MovePlayer(to) => v1001_v2168::spec_move_player(st, to),
        Handler::FullChunkData(to) => v1001_v2168::spec_full_chunk_data(st, to),
        Handler::DimensionData(to) => v1001_v2168::spec_dimension_data(st, to),
        Handler::Transfer(to) => v1001_v2168::spec_transfer(st, to),
        Handler::AnvilDamage(to) => v1001_v2168::spec_anvil_damage(st, to),
        Handler::ResourcePacksInfo(to) => v1001_v2168::spec_resource_packs_info(st, to),
        Handler::ServerboundDiagnostics(to) => v1001_v2168::spec_serverbound_diagnostics(st, to),
        Handler::PlaySoundLoops(to, loops) => v1001_v2168::spec_play_sound(st, to, loops),
        Handler::PlayerAuthInput(to) => v1001_v2168::spec_player_auth_input(st, to),
        Handler::ResourcePackClientResponse(to) => v1001_v2168::spec_resource_pack_client_response(st, to),
        Handler::StructureBlockUpdate(to) => v1001_v2168::spec_structure_block_update(st, to),
        Handler::SubChunk(to, shape) => sub_chunk::spec_sub_chunk(st, to, shape),
        Handler::SetScore(to, identity, on) => set_score_v2168::spec_set_score(st, to, identity, on),
        Handler::PlayerList(to) => Some(player_list_v2168::spec_player_list(st, to)),
        Handler::PlayerEnchantOptions(to) => v944_v975::spec_player_enchant_options(st, to),
        Handler::ItemStackResponse(to) => item_stack_v2168::spec_item_stack_response(st, to),
        Handler::InventoryTransaction => inventory_v2168::spec_inventory_transaction(st),
    }
}

/// The message handler `h` leaves for the connection when it meets a
/// packet it drops: its text, and the packet id it is left once for.
pub open spec fn spec_note(h: Handler, st: WireState) -> Option<(Option<u16>, Seq<char>)> {
    match h {
        Handler::StructureBlockUpdate(to) => v1001_v2168::spec_structure_note(st, to),
        Handler::PlayerList(to) => player_list_v2168::spec_list_note(st, to),
        Handler::SetScore(to, identity, on) => set_score_v2168::spec_score_note(st, to, identity, on),
        _ => None,
    }
}

/// Runs handler `h` on the packet being rewritten; a message it leaves goes
/// to `pending`, and `reported` keeps the ids of the once-only ones.
pub fn apply(
    h: Handler,
    w: &mut PacketWrapper,
    sounds: &SoundTable,
    pending: &mut Vec<String>,
    reported: &mut Vec<u16>,
) -> (r: Result<(), DecodeError>)
    requires
        old(w).wf(),
        handler_wf(h),
        sounds.wf(),
    ensures
        final(w).wf(),
        match spec_apply(h, old(w)@, sounds@) {
            Some(st) => r is Ok && final(w)@ == st,
            None => r is Err,
        },
        (texts(final(pending)@), final(reported)@) == after_note(texts(old(pending)@), old(reported)@, spec_note(h, old(w)@)),
{
    match h {
        Handler::ActorEvent(rw, d) => rw.actor_event(w, d),
        Handler::LevelSoundEvent(rw, d) => rw.level_sound_event(w, d),
        Handler::MobEffectAddAmbient => v860_v898::mob_effect_add_ambient(w),
        Handler::MobEffectDropAmbient => v860_v898::mob_effect_drop_ambient(w),
        Handler::AnimateAddData => v860_v898::animate_add_data(w),
        Handler::AnimateDropData => v860_v898::animate_drop_data(w),
        Handler::InteractAddPosition => v860_v898::interact_add_position(w),
        Handler::InteractDropPosition => v860_v898::interact_drop_position(w),
        Handler::ResourcePackStackAddName => v860_v898::resource_pack_stack_add_name(w),
        Handler::ResourcePackStackDropName => v860_v898::resource_pack_stack_drop_name(w),
        Handler::TelemetryWidenType => v860_v898::telemetry_widen_type(w),
        Handler::TelemetryNarrowType => v860_v898::telemetry_narrow_type(w),
        Handler::SpawnPositionToSigned => v924_v944::spawn_position_to_signed(w),
        Handler::SpawnPositionToUnsigned => v924_v944::spawn_position_to_unsigned(w),
        Handler::TileEvent(up) => v924_v944::tile_event_remap(w, up),
        Handler::PlaySound(to) => v944_v975::play_sound(w, to),
        Handler::ActorEventTrailing(to) => v944_v975::actor_event(w, to),
        Handler::LevelSoundEventTrailing(to) => v944_v975::level_sound_event(w, to),
        Handler::PartyChanged(to) => v944_v975::party_changed(w, to),
        Handler::UpdateClientOptions(to) => v944_v975::update_client_options(w, to),
        Handler::ClientMovementPredictionSync(to) => v944_v975::client_movement_prediction_sync(w, to),
        Handler::BossEvent(to) => v975_v1001::boss_event(w, to),
        Handler::LevelChunkCap(to) => v975_v1001::level_chunk(w, to),
        Handler::SubChunkRequest(to) => v975_v1001::sub_chunk_request(w, to),
        Handler::ClientCacheBlobStatus(to) => v975_v1001::client_cache_blob_status(w, to),
        Handler::ClientCacheStatusOff => v975_v1001::client_cache_status(w),
        Handler::DiagnosticsTrim => v975_v1001::diagnostics(w),
        Handler::BiomeDefinitionList => v975_v1001::biome_definition_list(w),
        Handler::SoundName(to) => v975_v1001::level_sound_event(w, sounds, to),
        Handler::MoveDeltaActor(to) => v1001_v2168::move_delta_actor(w, to),
        Handler::MovePlayer(to) => v1001_v2168::move_player(w, to),
        Handler::FullChunkData(to) => v1001_v2168::full_chunk_data(w, to),
        Handler::DimensionData(to) => v1001_v2168::dimension_data(w, to),
        Handler::Transfer(to) => v1001_v2168::transfer(w, to),
        Handler::AnvilDamage(to) => v1001_v2168::anvil_damage(w, to),
        Handler::ResourcePacksInfo(to) => v1001_v2168::resource_packs_info(w, to),
        Handler::ServerboundDiagnostics(to) => v1001_v2168::serverbound_diagnostics(w, to),
        Handler::PlaySoundLoops(to, loops) => v1001_v2168::play_sound(w, to, loops),
        Handler::PlayerAuthInput(to) => v1001_v2168::player_auth_input(w, to),
        Handler::ResourcePackClientResponse(to) => v1001_v2168::resource_pack_client_response(w, to),
        Handler::StructureBlockUpdate(to) => v1001_v2168::structure_block_update(w, to, pending),
        Handler::SubChunk(to, shape) => sub_chunk::sub_chunk(w, to, shape),
        Handler::SetScore(to, identity, on) => set_score_v2168::set_score(w, to, identity, on, pending, reported),
        Handler::PlayerList(to) => player_list_v2168::player_list(w, to, pending),
        Handler::PlayerEnchantOptions(to) => v944_v975::player_enchant_options(w, to),
        Handler::ItemStackResponse(to) => item_stack_v2168::item_stack_response(w, to),
        Handler::InventoryTransaction => inventory_v2168::inventory_transaction(w),
    }
}

} // verus!
