use bedrock_protocol::sound_events::{id_to_name, len, name_bytes_to_id, name_to_id, SoundTable};

const SAMPLE: &str = "0\titem.use.on\n1\thit\r\n2\tstep\n\n# a comment line\n+3\tbreak\n4294967296\ttoo.big\nx\tnot.a.number\n5\n";

#[test]
fn sample_table_parses_the_well_formed_lines() {
    let t = SoundTable::parse(SAMPLE);
    assert_eq!(len(&t), 4);
    assert_eq!(id_to_name(&t, 0), Some("item.use.on"));
    assert_eq!(id_to_name(&t, 1), Some("hit"));
    assert_eq!(id_to_name(&t, 2), Some("step"));
    assert_eq!(id_to_name(&t, 3), Some("break"));
    assert_eq!(id_to_name(&t, 5), None);
    assert_eq!(name_to_id(&t, "hit"), Some(1));
    assert_eq!(name_to_id(&t, "too.big"), None);
    assert_eq!(name_to_id(&t, "not.a.number"), None);
    assert_eq!(name_to_id(&t, "this-sound-does-not-exist"), None);
}

#[test]
fn sample_table_round_trips_every_id() {
    let t = SoundTable::parse(SAMPLE);
    for id in 0..=600u32 {
        if let Some(name) = id_to_name(&t, id) {
            assert_eq!(name_to_id(&t, name), Some(id), "id {id} does not round trip");
        }
    }
}

#[test]
fn later_lines_win_and_len_counts_distinct_ids() {
    let t = SoundTable::parse("7\tfirst\n7\tsecond\n8\tfirst\r\r\n");
    assert_eq!(len(&t), 2);
    assert_eq!(id_to_name(&t, 7), Some("second"));
    assert_eq!(name_to_id(&t, "first"), Some(8));
    assert_eq!(name_to_id(&t, "second"), Some(7));
}

#[test]
fn names_keep_their_tabs_and_ids_reject_signs() {
    let t = SoundTable::parse("9\ta\tb\n-1\tneg\n+\tplus\n00010\tpadded");
    assert_eq!(id_to_name(&t, 9), Some("a\tb"));
    assert_eq!(name_to_id(&t, "neg"), None);
    assert_eq!(name_to_id(&t, "plus"), None);
    assert_eq!(id_to_name(&t, 10), Some("padded"));
    assert_eq!(len(&t), 2);
}

#[test]
fn empty_text_gives_an_empty_table() {
    let t = SoundTable::parse("");
    assert_eq!(len(&t), 0);
    assert_eq!(id_to_name(&t, 0), None);
}

#[test]
fn lookup_by_utf8_bytes_matches_lookup_by_name() {
    let t = SoundTable::parse("1\thit\n2\tnote.é\n");
    assert_eq!(name_bytes_to_id(&t, b"hit"), Some(1));
    assert_eq!(name_bytes_to_id(&t, "note.é".as_bytes()), Some(2));
    assert_eq!(name_bytes_to_id(&t, b"miss"), None);
}
