//! The protocol versions the library knows by name, and the ones it can
//! translate between.
use vstd::prelude::*;
use crate::text::{decimal, push_char, push_decimal};

verus! {

/// A protocol number and the game release that speaks it.
#[derive(Debug, Clone, Copy, PartialEq, Eq)]
pub struct Version {
    pub protocol: u32,
    pub name: &'static str,
}

/// The known versions, newest first: protocol number and release name.
pub open spec fn version_table() -> Seq<(u32, Seq<char>)> {
    seq![
        (2169u32, "1.26.45"@),
        (2168u32, "1.26.40"@),
        (1001u32, "1.26.30"@),
        (975u32, "1.26.20"@),
        (944u32, "1.26.10"@),
        (924u32, "1.26.0"@),
        (898u32, "1.21.130"@),
        (860u32, "1.21.124"@),
        (859u32, "1.21.120"@),
        (844u32, "1.21.111"@),
        (827u32, "1.21.100"@),
        (819u32, "1.21.93"@),
        (818u32, "1.21.90"@),
        (800u32, "1.21.80"@),
        (786u32, "1.21.70"@),
        (776u32, "1.21.60"@),
        (766u32, "1.21.50"@),
        (748u32, "1.21.40"@),
        (729u32, "1.21.30"@),
    ]
}

/// The protocols that have a translation step to a neighbour, oldest first.
pub open spec fn translatable_table() -> Seq<u32> {
    seq![859u32, 860, 898, 924, 944, 975, 1001, 2168, 2169]
}

/// The name of `protocol` in the version table, if it is there.
pub open spec fn spec_name_of(protocol: u32) -> Option<Seq<char>> {
    let t = version_table();
    if exists|i: int| 0 <= i < t.len() && #[trigger] t[i].0 == protocol {
        let i = choose|i: int| 0 <= i < t.len() && #[trigger] t[i].0 == protocol;
        Some(t[i].1)
    } else {
        None
    }
}

/// What `describe` says of a protocol.
pub open spec fn spec_describe(protocol: u32) -> Seq<char> {
    match spec_name_of(protocol) {
        Some(name) => name + " (protocol "@ + decimal(protocol as nat) + ")"@,
        None => "protocol "@ + decimal(protocol as nat),
    }
}

/// The greatest translatable protocol that is at most `protocol`.
pub open spec fn spec_nearest_below(protocol: u32) -> Option<u32> {
    let t = translatable_table();
    if exists|i: int| 0 <= i < t.len() && #[trigger] t[i] <= protocol {
        Some(choose|c: u32| t.contains(c) && c <= protocol
            && forall|j: int| 0 <= j < t.len() && #[trigger] t[j] <= protocol ==> t[j] <= c)
    } else {
        None
    }
}

/// The version table, newest first.
pub fn versions() -> (v: Vec<Version>)
    ensures
        v@.len() == version_table().len(),
        forall|i: int| 0 <= i < v@.len() ==> (#[trigger] v@[i]).protocol == version_table()[i].0
            && v@[i].name@ == version_table()[i].1,
{
    vec![
        Version { protocol: 2169, name: "1.26.45" },
        Version { protocol: 2168, name: "1.26.40" },
        Version { protocol: 1001, name: "1.26.30" },
        Version { protocol: 975, name: "1.26.20" },
        Version { protocol: 944, name: "1.26.10" },
        Version { protocol: 924, name: "1.26.0" },
        Version { protocol: 898, name: "1.21.130" },
        Version { protocol: 860, name: "1.21.124" },
        Version { protocol: 859, name: "1.21.120" },
        Version { protocol: 844, name: "1.21.111" },
        Version { protocol: 827, name: "1.21.100" },
        Version { protocol: 819, name: "1.21.93" },
        Version { protocol: 818, name: "1.21.90" },
        Version { protocol: 800, name: "1.21.80" },
        Version { protocol: 786, name: "1.21.70" },
        Version { protocol: 776, name: "1.21.60" },
        Version { protocol: 766, name: "1.21.50" },
        Version { protocol: 748, name: "1.21.40" },
        Version { protocol: 729, name: "1.21.30" },
    ]
}

/// The translatable protocols, oldest first.
pub fn translatable() -> (v: Vec<u32>)
    ensures
        v@ == translatable_table(),
{
    let v = vec![859u32, 860, 898, 924, 944, 975, 1001, 2168, 2169];
    assert(v@ =~= translatable_table());
    v
}

/// The release name of `protocol`, if the version table knows it.
pub fn name_of(protocol: u32) -> (r: Option<&'static str>)
    ensures
        match r {
            Some(name) => spec_name_of(protocol) == Some(name@),
            None => spec_name_of(protocol) is None,
        },
{
    let table = versions();
    let ghost t = version_table();
    let mut i: usize = 0;
    while i < table.len()
        invariant
            t == version_table(),
            table@.len() == t.len(),
            forall|k: int| 0 <= k < table@.len() ==> (#[trigger] table@[k]).protocol == t[k].0
                && table@[k].name@ == t[k].1,
            i <= table@.len(),
            forall|k: int| 0 <= k < i ==> t[k].0 != protocol,
        decreases table@.len() - i,
    {
        if table[i].protocol == protocol {
            proof {
                lemma_version_protocols_unique();
                assert(t[i as int].0 == protocol);
                let j = choose|j: int| 0 <= j < t.len() && #[trigger] t[j].0 == protocol;
                if j < i { assert(t[j].0 > t[i as int].0); }
                if j > i { assert(t[i as int].0 > t[j].0); }
                assert(j == i);
            }
            return Some(table[i].name);
        }
        i = i + 1;
    }
    None
}

/// Protocol numbers in the version table are strictly descending, so each
/// appears once.
pub proof fn lemma_version_protocols_unique()
    ensures
        forall|i: int, j: int|
            0 <= i < j < version_table().len() ==> #[trigger] version_table()[i].0
                > #[trigger] version_table()[j].0,
{
    let t = version_table();
    assert forall|i: int, j: int| 0 <= i < j < t.len() implies #[trigger] t[i].0 > #[trigger] t[j].0 by {
        assert(forall|k: int| 0 <= k < t.len() - 1 ==> #[trigger] t[k].0 > t[k + 1].0);
        lemma_descending_pairwise(t, i, j);
    }
}

proof fn lemma_descending_pairwise(t: Seq<(u32, Seq<char>)>, i: int, j: int)
    requires
        forall|k: int| 0 <= k < t.len() - 1 ==> #[trigger] t[k].0 > t[k + 1].0,
        0 <= i < j < t.len(),
    ensures
        t[i].0 > t[j].0,
    decreases j - i,
{
    if j > i + 1 {
        lemma_descending_pairwise(t, i, j - 1);
        assert(t[j - 1].0 > t[j].0);
    }
}

/// A human-readable description of `protocol`: "NAME (protocol N)" when the
/// name is known, "protocol N" otherwise.
pub fn describe(protocol: u32) -> (s: String)
    ensures
        s@ == spec_describe(protocol),
{
    let mut s = String::new();
    match name_of(protocol) {
        Some(name) => {
            s.append(name);
            s.append(" (protocol ");
            push_decimal(&mut s, protocol);
            push_char(&mut s, ')');
            proof {
                reveal_strlit(")");
            }
            assert(s@ =~= name@ + " (protocol "@ + decimal(protocol as nat) + ")"@);
        },
        None => {
            s.append("protocol ");
            push_decimal(&mut s, protocol);
            assert(s@ =~= "protocol "@ + decimal(protocol as nat));
        },
    }
    s
}

/// Whether there is a translation path that touches `protocol`.
pub fn is_translatable(protocol: u32) -> (b: bool)
    ensures
        b == translatable_table().contains(protocol),
{
    let table = translatable();
    let mut i: usize = 0;
    while i < table.len()
        invariant
            table@ == translatable_table(),
            i <= table@.len(),
            forall|k: int| 0 <= k < i ==> table@[k] != protocol,
        decreases table@.len() - i,
    {
        if table[i] == protocol {
            assert(table@[i as int] == protocol);
            return true;
        }
        i = i + 1;
    }
    false
}

/// The newest translatable protocol that is not newer than `protocol`.
pub fn nearest_translatable_below(protocol: u32) -> (r: Option<u32>)
    ensures
        r == spec_nearest_below(protocol),
        match r {
            Some(c) => translatable_table().contains(c) && c <= protocol && forall|j: int|
                0 <= j < translatable_table().len() && #[trigger] translatable_table()[j]
                    <= protocol ==> translatable_table()[j] <= c,
            None => forall|j: int|
                0 <= j < translatable_table().len() ==> #[trigger] translatable_table()[j]
                    > protocol,
        },
{
    let table = translatable();
    let ghost t = translatable_table();
    let mut best: Option<u32> = None;
    let mut i: usize = 0;
    while i < table.len()
        invariant
            t == translatable_table(),
            table@ == t,
            i <= table@.len(),
            match best {
                Some(c) => t.contains(c) && c <= protocol && forall|j: int|
                    0 <= j < i && #[trigger] t[j] <= protocol ==> t[j] <= c,
                None => forall|j: int| 0 <= j < i ==> #[trigger] t[j] > protocol,
            },
        decreases table@.len() - i,
    {
        let c = table[i];
        if c <= protocol {
            match best {
                Some(b) => {
                    if c > b {
                        best = Some(c);
                    }
                },
                None => {
                    best = Some(c);
                },
            }
            assert(t[i as int] == c);
        }
        i = i + 1;
    }
    proof {
        match best {
            Some(c) => {
                let w = choose|c2: u32| t.contains(c2) && c2 <= protocol && forall|j: int|
                    0 <= j < t.len() && #[trigger] t[j] <= protocol ==> t[j] <= c2;
                assert(t.contains(c));
                let k = choose|k: int| 0 <= k < t.len() && t[k] == c;
                assert(t[k] <= protocol);
                let kw = choose|k: int| 0 <= k < t.len() && t[k] == w;
                assert(t[kw] <= protocol);
                assert(c <= w && w <= c);
            },
            None => {},
        }
    }
    best
}

/// Every translatable protocol has a name in the version table.
pub proof fn lemma_translatable_are_named(protocol: u32)
    requires
        translatable_table().contains(protocol),
    ensures
        spec_name_of(protocol) is Some,
{
    let t = version_table();
    let k = choose|k: int| 0 <= k < translatable_table().len() && translatable_table()[k] == protocol;
    if protocol == 859 { assert(t[8].0 == protocol); }
    else if protocol == 860 { assert(t[7].0 == protocol); }
    else if protocol == 898 { assert(t[6].0 == protocol); }
    else if protocol == 924 { assert(t[5].0 == protocol); }
    else if protocol == 944 { assert(t[4].0 == protocol); }
    else if protocol == 975 { assert(t[3].0 == protocol); }
    else if protocol == 1001 { assert(t[2].0 == protocol); }
    else if protocol == 2168 { assert(t[1].0 == protocol); }
    else { assert(t[0].0 == protocol); }
}

/// A translatable protocol is its own nearest translatable neighbour below.
pub proof fn lemma_nearest_below_of_translatable(protocol: u32)
    requires
        translatable_table().contains(protocol),
    ensures
        spec_nearest_below(protocol) == Some(protocol),
{
    let t = translatable_table();
    let k = choose|k: int| 0 <= k < t.len() && t[k] == protocol;
    assert(t[k] <= protocol);
    let c = choose|c: u32| t.contains(c) && c <= protocol
        && forall|j: int| 0 <= j < t.len() && #[trigger] t[j] <= protocol ==> t[j] <= c;
    assert(t[k] <= c);
}

} // verus!
