//! The translation steps between adjacent protocol versions.
pub mod v860_v898;
pub mod v924_v944;
pub mod v944_v975;
pub mod v975_v1001;
pub mod v1001_v2168;
pub mod sub_chunk;
pub mod set_score_v2168;
pub mod player_list_v2168;
pub mod v859_v860;
pub mod v2168_v2169;
pub mod v898_v924;
pub mod item_stack_v2168;
pub mod inventory_v2168;

use vstd::prelude::*;
use crate::translator::Translator;
use crate::steps::sub_chunk::SubChunkShape;
use crate::versions::translatable_table;
use crate::manager::{hop_path, hop_served, hops_available, serves};

verus! {

/// The protocol pairs of the steps, in the order `all` returns them:
/// (server, client).
pub open spec fn step_pairs() -> Seq<(u32, u32)> {
    seq![
        (859u32, 860u32),
        (860, 859),
        (860, 898),
        (898, 860),
        (898, 924),
        (924, 898),
        (924, 944),
        (944, 924),
        (944, 975),
        (975, 944),
        (975, 1001),
        (1001, 975),
        (1001, 2168),
        (2168, 1001),
        (2168, 2169),
        (2169, 2168),
    ]
}

/// Every translation step, both directions of each adjacent pair;
/// `blob_cache` when clients may keep the blob cache, `loops` the loop
/// count of sounds sent to protocol 2168, `sub_chunk` the shape of the
/// sub-chunks sent to protocol 2168 (dropped when none), `scores` whether
/// score packets are translated between protocols 1001 and 2168.
pub fn all(blob_cache: bool, loops: i32, sub_chunk: Option<SubChunkShape>, scores: bool) -> (v: Vec<Translator>)
    ensures
        v@.len() == step_pairs().len(),
        forall|i: int| 0 <= i < v@.len() ==> (#[trigger] v@[i]).wf() && v@[i].server_protocol
            == step_pairs()[i].0 && v@[i].client_protocol == step_pairs()[i].1,
{
    let v = vec![
        v859_v860::downgrade(),
        v859_v860::upgrade(),
        v860_v898::downgrade(),
        v860_v898::upgrade(),
        v898_v924::downgrade(),
        v898_v924::upgrade(),
        v924_v944::downgrade(),
        v924_v944::upgrade(),
        v944_v975::downgrade(),
        v944_v975::upgrade(),
        v975_v1001::downgrade(blob_cache),
        v975_v1001::upgrade(blob_cache),
        v1001_v2168::downgrade(loops, sub_chunk, scores),
        v1001_v2168::upgrade(loops, sub_chunk, scores),
        v2168_v2169::downgrade(),
        v2168_v2169::upgrade(),
    ];
    v
}

/// No step names a protocol outside the translatable set.
pub proof fn law_steps_are_translatable()
    ensures
        forall|i: int| 0 <= i < step_pairs().len() ==> translatable_table().contains(
            #[trigger] step_pairs()[i].0,
        ) && translatable_table().contains(step_pairs()[i].1),
{
    let t = translatable_table();
    assert(t[0] == 859 && t[1] == 860 && t[2] == 898 && t[3] == 924 && t[4] == 944 && t[5] == 975
        && t[6] == 1001 && t[7] == 2168 && t[8] == 2169);
}

/// Every two adjacent translatable protocols have a step each way.
pub proof fn law_adjacent_pairs_have_both_directions()
    ensures
        forall|i: int| 0 <= i < translatable_table().len() - 1 ==> {
            let (older, newer) = (translatable_table()[i], #[trigger] translatable_table()[i + 1]);
            &&& step_pairs().contains((older, newer))
            &&& step_pairs().contains((newer, older))
        },
{
    let t = translatable_table();
    let p = step_pairs();
    assert(t.len() == 9);
    assert forall|i: int| 0 <= i < t.len() - 1 implies {
        let (older, newer) = (t[i], #[trigger] t[i + 1]);
        &&& p.contains((older, newer))
        &&& p.contains((newer, older))
    } by {
        assert(p[2 * i] == (t[i], t[i + 1]));
        assert(p[2 * i + 1] == (t[i + 1], t[i]));
    }
}

/// With the steps `all` returns, every translatable client protocol can be
/// served from every translatable server protocol, hop by hop.
pub proof fn law_every_path_is_served(steps: Seq<Translator>, i: int, j: int)
    requires
        steps.len() == step_pairs().len(),
        forall|k: int| 0 <= k < steps.len() ==> (#[trigger] steps[k]).server_protocol == step_pairs()[k].0
            && steps[k].client_protocol == step_pairs()[k].1,
        0 <= i < translatable_table().len(),
        0 <= j < translatable_table().len(),
    ensures
        hops_available(steps, hop_path(translatable_table(), i, j)),
{
    let t = translatable_table();
    let p = hop_path(t, i, j);
    assert forall|k: int| 0 <= k < p.len() - 1 implies #[trigger] hop_served(steps, p, k) by {
        if i <= j {
            let m = i + k;
            assert(p[k] == t[m] && p[k + 1] == t[m + 1]);
            assert(serves(steps, 2 * m, p[k], p[k + 1]));
        } else {
            let m = i - k - 1;
            assert(p[k] == t[m + 1] && p[k + 1] == t[m]);
            assert(serves(steps, 2 * m + 1, p[k], p[k + 1]));
        }
    }
}

} // verus!
