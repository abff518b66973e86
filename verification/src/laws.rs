//! What holds of the codec as a whole: decoding gives canonical records, and
//! writing a record and reading the entries back brings it to canonical form.

use crate::document::Entries;
use crate::record::{
    decode_entries, encode_entries, last_value, lemma_encode_entries, lemma_word_shapes,
    misc_word, switch_word, Record,
};
use crate::repair::{
    lemma_clean_name_kept, lemma_stored_name_clean, lemma_written_name_clean, written_name,
};
use crate::text::{decimal, lemma_decimal_digits, lemma_parse_decimal, lowered, parsed_u16};
use vstd::prelude::*;

verus! {

/// The word under which the `k`-th entry of an encoded record is read back.
pub open spec fn field_word(k: int) -> Seq<char> {
    if k == 0 {
        "mapx"@
    } else if k == 1 {
        "mapy"@
    } else if k < 6 {
        misc_word(k - 2)
    } else if k == 6 {
        "playername"@
    } else {
        switch_word(k - 7)
    }
}

/// No two fields are read under the same word.
pub proof fn lemma_field_words_distinct(a: int, b: int)
    requires
        0 <= a < 15,
        0 <= b < 15,
        a != b,
    ensures
        field_word(a) != field_word(b),
{
    lemma_word_shapes();
    if 2 <= a < 6 {
        assert(misc_word(a - 2).len() == 5);
    }
    if 2 <= b < 6 {
        assert(misc_word(b - 2).len() == 5);
    }
    if 7 <= a {
        assert(switch_word(a - 7).len() == 7);
    }
    if 7 <= b {
        assert(switch_word(b - 7).len() == 7);
    }
}

proof fn lemma_lowered_coordinates()
    ensures
        lowered("MapX"@) == "mapx"@,
        lowered("MapY"@) == "mapy"@,
        lowered("PlayerName"@) == "playername"@,
        lowered("TRUE"@) == "true"@,
        lowered("FALSE"@) != "true"@,
{
    reveal_strlit("MapX");
    reveal_strlit("mapx");
    reveal_strlit("MapY");
    reveal_strlit("mapy");
    reveal_strlit("PlayerName");
    reveal_strlit("playername");
    reveal_strlit("TRUE");
    reveal_strlit("FALSE");
    reveal_strlit("true");
    assert(lowered("MapX"@) =~= "mapx"@);
    assert(lowered("MapY"@) =~= "mapy"@);
    assert(lowered("PlayerName"@) =~= "playername"@);
    assert(lowered("TRUE"@) =~= "true"@);
    assert(lowered("FALSE"@).len() == 5);
}

proof fn lemma_lowered_misc()
    ensures
        lowered("Misc0"@) == "misc0"@,
        lowered("Misc1"@) == "misc1"@,
        lowered("Misc2"@) == "misc2"@,
        lowered("Misc3"@) == "misc3"@,
{
    reveal_strlit("Misc0");
    reveal_strlit("misc0");
    reveal_strlit("Misc1");
    reveal_strlit("misc1");
    reveal_strlit("Misc2");
    reveal_strlit("misc2");
    reveal_strlit("Misc3");
    reveal_strlit("misc3");
    assert(lowered("Misc0"@) =~= "misc0"@);
    assert(lowered("Misc1"@) =~= "misc1"@);
    assert(lowered("Misc2"@) =~= "misc2"@);
    assert(lowered("Misc3"@) =~= "misc3"@);
}

proof fn lemma_lowered_switches()
    ensures
        lowered("Switch0"@) == "switch0"@,
        lowered("Switch1"@) == "switch1"@,
        lowered("Switch2"@) == "switch2"@,
        lowered("Switch3"@) == "switch3"@,
        lowered("Switch4"@) == "switch4"@,
        lowered("Switch5"@) == "switch5"@,
        lowered("Switch6"@) == "switch6"@,
        lowered("Switch7"@) == "switch7"@,
{
    reveal_strlit("Switch0");
    reveal_strlit("switch0");
    reveal_strlit("Switch1");
    reveal_strlit("switch1");
    reveal_strlit("Switch2");
    reveal_strlit("switch2");
    reveal_strlit("Switch3");
    reveal_strlit("switch3");
    reveal_strlit("Switch4");
    reveal_strlit("switch4");
    reveal_strlit("Switch5");
    reveal_strlit("switch5");
    reveal_strlit("Switch6");
    reveal_strlit("switch6");
    reveal_strlit("Switch7");
    reveal_strlit("switch7");
    assert(lowered("Switch0"@) =~= "switch0"@);
    assert(lowered("Switch1"@) =~= "switch1"@);
    assert(lowered("Switch2"@) =~= "switch2"@);
    assert(lowered("Switch3"@) =~= "switch3"@);
    assert(lowered("Switch4"@) =~= "switch4"@);
    assert(lowered("Switch5"@) =~= "switch5"@);
    assert(lowered("Switch6"@) =~= "switch6"@);
    assert(lowered("Switch7"@) =~= "switch7"@);
}

/// Each key that encoding writes is read back under the word of its own field.
pub proof fn lemma_written_keys(r: Record, k: int)
    requires
        0 <= k < 15,
    ensures
        lowered(encode_entries(r)[k].0) == field_word(k),
{
    lemma_encode_entries(r);
    lemma_lowered_coordinates();
    lemma_lowered_misc();
    lemma_lowered_switches();
}

/// Where exactly one entry has the key `word`, its value is the one found.
pub proof fn lemma_last_value_unique(entries: Entries, j: int, word: Seq<char>)
    requires
        0 <= j < entries.len(),
        lowered(entries[j].0) == word,
        forall|k: int| j < k < entries.len() ==> lowered(#[trigger] entries[k].0) != word,
    ensures
        last_value(entries, word) == Some(entries[j].1),
    decreases entries.len(),
{
    if j < entries.len() - 1 {
        assert(lowered(entries[entries.len() - 1].0) != word);
        let rest = entries.drop_last();
        assert(rest[j] == entries[j]);
        assert forall|k: int| j < k < rest.len() implies lowered(#[trigger] rest[k].0) != word by {
            assert(rest[k] == entries[k]);
        }
        lemma_last_value_unique(rest, j, word);
    }
}

/// Reading the entries of an encoded record finds each field's own value.
pub proof fn lemma_written_value_found(r: Record, j: int)
    requires
        0 <= j < 15,
    ensures
        last_value(encode_entries(r), field_word(j)) == Some(encode_entries(r)[j].1),
{
    let e = encode_entries(r);
    lemma_encode_entries(r);
    lemma_written_keys(r, j);
    assert forall|k: int| j < k < e.len() implies lowered(#[trigger] e[k].0) != field_word(j) by {
        lemma_written_keys(r, k);
        lemma_field_words_distinct(j, k);
    }
    lemma_last_value_unique(e, j, field_word(j));
}

/// Writing a record and reading its entries back gives its canonical form.
pub proof fn lemma_round_trip_normalizes(r: Record)
    requires
        r.well_formed(),
    ensures
        decode_entries(encode_entries(r)) == r.normalized(),
        r.normalized().canonical(),
{
    let e = encode_entries(r);
    let d = decode_entries(e);
    lemma_encode_entries(r);
    lemma_lowered_coordinates();
    assert forall|j: int| 0 <= j < 15 implies last_value(e, field_word(j)) == Some(#[trigger] e[j].1) by {
        lemma_written_value_found(r, j);
    }
    assert(field_word(0) == "mapx"@ && field_word(1) == "mapy"@ && field_word(6) == "playername"@);
    assert(last_value(e, "mapx"@) == Some(e[0].1));
    assert(last_value(e, "mapy"@) == Some(e[1].1));
    assert(last_value(e, "playername"@) == Some(e[6].1));
    lemma_parse_decimal((r.map_x % 1024) as u16);
    lemma_parse_decimal((r.map_y % 1024) as u16);
    assert(d.map_x == r.map_x % 1024);
    assert(d.map_y == r.map_y % 1024);
    assert forall|i: int| 0 <= i < 4 implies #[trigger] d.misc[i] == r.misc[i] by {
        assert(field_word(2 + i) == misc_word(i));
        assert(last_value(e, misc_word(i)) == Some(e[2 + i].1));
        lemma_parse_decimal(r.misc[i] as u16);
    }
    assert(d.misc =~= r.misc);
    assert forall|i: int| 0 <= i < 8 implies #[trigger] d.switch[i] == r.switch[i] by {
        assert(field_word(7 + i) == switch_word(i));
        assert(last_value(e, switch_word(i)) == Some(e[7 + i].1));
    }
    assert(d.switch =~= r.switch);
    lemma_written_name_clean(r.player_name);
    lemma_clean_name_kept(written_name(r.player_name));
    assert(d.player_name == written_name(r.player_name));
}

/// A canonical record is its own canonical form.
pub proof fn lemma_canonical_is_normalized(r: Record)
    requires
        r.canonical(),
    ensures
        r.normalized() == r,
{
    lemma_clean_name_kept(r.player_name);
}

/// Round trip: a canonical record, written and read back, is unchanged.
pub proof fn lemma_round_trip(r: Record)
    requires
        r.canonical(),
    ensures
        decode_entries(encode_entries(r)) == r,
{
    lemma_round_trip_normalizes(r);
    lemma_canonical_is_normalized(r);
}

/// Whatever the entries, the record they decode to is canonical.
pub proof fn lemma_decode_is_canonical(entries: Entries)
    ensures
        decode_entries(entries).canonical(),
{
    match last_value(entries, "playername"@) {
        Some(text) => lemma_stored_name_clean(text),
        None => {
            assert(vstd::utf8::encode_utf8(Seq::<char>::empty()).len() == 0);
        },
    }
}

/// A section without entries decodes to the record of all defaults.
pub proof fn lemma_decode_nothing()
    ensures
        decode_entries(Seq::empty()) == Record::blank(),
        Record::blank().canonical(),
{
    assert(decode_entries(Seq::empty()).misc =~= Record::blank().misc);
    assert(decode_entries(Seq::empty()).switch =~= Record::blank().switch);
    lemma_decode_is_canonical(Seq::empty());
}

/// A coordinate written as the numeral of any 16-bit number is read as that
/// number modulo 1024.
pub proof fn lemma_coordinate_wraps(x: u16)
    ensures
        decode_entries(seq![("MapX"@, decimal(x as nat))]).map_x == x % 1024,
        decode_entries(seq![("MapY"@, decimal(x as nat))]).map_y == x % 1024,
{
    lemma_lowered_coordinates();
    lemma_parse_decimal(x);
    let ex = seq![("MapX"@, decimal(x as nat))];
    let ey = seq![("MapY"@, decimal(x as nat))];
    assert(ex.last() == ("MapX"@, decimal(x as nat)));
    assert(ey.last() == ("MapY"@, decimal(x as nat)));
}

/// One more entry changes the field that its key names and no other; where
/// its key names no field it changes nothing.
pub proof fn lemma_entry_is_local(entries: Entries, key: Seq<char>, value: Seq<char>, word: Seq<char>)
    ensures
        last_value(entries.push((key, value)), word) == if lowered(key) == word {
            Some(value)
        } else {
            last_value(entries, word)
        },
{
    let next = entries.push((key, value));
    assert(next.drop_last() == entries);
    assert(next.last() == (key, value));
}

/// A coordinate or free number whose value writes no 16-bit number becomes 0,
/// and every other field stays as it was.
pub proof fn lemma_bad_number_clears_one_field(entries: Entries, key: Seq<char>, value: Seq<char>)
    requires
        parsed_u16(value) is None,
    ensures
        ({
            let before = decode_entries(entries);
            let after = decode_entries(entries.push((key, value)));
            &&& lowered(key) == "mapx"@ ==> after == (Record { map_x: 0, ..before })
            &&& lowered(key) == "mapy"@ ==> after == (Record { map_y: 0, ..before })
            &&& forall|i: int|
                0 <= i < 4 && lowered(key) == #[trigger] misc_word(i) ==> after == (Record {
                    misc: before.misc.update(i, 0),
                    ..before
                })
        }),
{
    let before = decode_entries(entries);
    let next = entries.push((key, value));
    let after = decode_entries(next);
    assert forall|k: int| 0 <= k < 15 implies last_value(next, #[trigger] field_word(k)) == if lowered(
        key,
    ) == field_word(k) {
        Some(value)
    } else {
        last_value(entries, field_word(k))
    } by {
        lemma_entry_is_local(entries, key, value, field_word(k));
    }
    assert forall|j: int| 0 <= j < 15 && lowered(key) == field_word(j) implies (forall|k: int|
        0 <= k < 15 && k != j ==> last_value(next, #[trigger] field_word(k)) == last_value(
            entries,
            field_word(k),
        )) by {
        assert forall|k: int| 0 <= k < 15 && k != j implies last_value(
            next,
            #[trigger] field_word(k),
        ) == last_value(entries, field_word(k)) by {
            lemma_field_words_distinct(j, k);
        }
    }
    assert(field_word(0) == "mapx"@ && field_word(1) == "mapy"@ && field_word(6) == "playername"@);
    assert forall|i: int| 0 <= i < 4 implies field_word(2 + i) == #[trigger] misc_word(i) by {}
    assert forall|i: int| 0 <= i < 8 implies field_word(7 + i) == #[trigger] switch_word(i) by {}
    if lowered(key) == "mapx"@ {
        assert(lowered(key) == field_word(0));
        let want = Record { map_x: 0, ..before };
        assert(after.misc =~= want.misc) by {
            assert forall|i: int| 0 <= i < 4 implies after.misc[i] == want.misc[i] by {
                assert(field_word(2 + i) == misc_word(i));
            }
        }
        assert(after.switch =~= want.switch) by {
            assert forall|i: int| 0 <= i < 8 implies after.switch[i] == want.switch[i] by {
                assert(field_word(7 + i) == switch_word(i));
            }
        }
        assert(after == want);
    }
    if lowered(key) == "mapy"@ {
        assert(lowered(key) == field_word(1));
        let want = Record { map_y: 0, ..before };
        assert(after.misc =~= want.misc) by {
            assert forall|i: int| 0 <= i < 4 implies after.misc[i] == want.misc[i] by {
                assert(field_word(2 + i) == misc_word(i));
            }
        }
        assert(after.switch =~= want.switch) by {
            assert forall|i: int| 0 <= i < 8 implies after.switch[i] == want.switch[i] by {
                assert(field_word(7 + i) == switch_word(i));
            }
        }
        assert(after == want);
    }
    assert forall|i: int| 0 <= i < 4 && lowered(key) == #[trigger] misc_word(i) implies after == (Record {
        misc: before.misc.update(i, 0),
        ..before
    }) by {
        assert(lowered(key) == field_word(2 + i));
        let want = Record { misc: before.misc.update(i, 0), ..before };
        assert(after.misc =~= want.misc) by {
            assert forall|m: int| 0 <= m < 4 implies after.misc[m] == want.misc[m] by {
                assert(field_word(2 + m) == misc_word(m));
            }
        }
        assert(after.switch =~= want.switch) by {
            assert forall|m: int| 0 <= m < 8 implies after.switch[m] == want.switch[m] by {
                assert(field_word(7 + m) == switch_word(m));
            }
        }
        assert(after == want);
    }
}

/// A text without carriage return and line feed: it fits on one line.
pub open spec fn one_line(text: Seq<char>) -> bool {
    forall|i: int| 0 <= i < text.len() ==> text[i] != '\r' && text[i] != '\n'
}

proof fn lemma_labels_one_line()
    ensures
        one_line("MapX"@),
        one_line("MapY"@),
        one_line("Misc0"@),
        one_line("Misc1"@),
        one_line("Misc2"@),
        one_line("Misc3"@),
        one_line("PlayerName"@),
        one_line("Switch0"@),
        one_line("Switch1"@),
        one_line("Switch2"@),
        one_line("Switch3"@),
        one_line("Switch4"@),
        one_line("Switch5"@),
        one_line("Switch6"@),
        one_line("Switch7"@),
        one_line("TRUE"@),
        one_line("FALSE"@),
{
    reveal_strlit("MapX");
    reveal_strlit("MapY");
    reveal_strlit("Misc0");
    reveal_strlit("Misc1");
    reveal_strlit("Misc2");
    reveal_strlit("Misc3");
    reveal_strlit("PlayerName");
    reveal_strlit("Switch0");
    reveal_strlit("Switch1");
    reveal_strlit("Switch2");
    reveal_strlit("Switch3");
    reveal_strlit("Switch4");
    reveal_strlit("Switch5");
    reveal_strlit("Switch6");
    reveal_strlit("Switch7");
    reveal_strlit("TRUE");
    reveal_strlit("FALSE");
}

/// No key and no value that encoding writes holds a carriage return or a line
/// feed: each entry is written as exactly one line, ended by the one line feed
/// that follows it.
pub proof fn lemma_entries_are_one_line(r: Record, k: int)
    requires
        0 <= k < 15,
    ensures
        one_line(encode_entries(r)[k].0),
        one_line(encode_entries(r)[k].1),
{
    lemma_encode_entries(r);
    lemma_labels_one_line();
    lemma_decimal_digits(r.map_x % 1024);
    lemma_decimal_digits(r.map_y % 1024);
    lemma_decimal_digits(r.misc[0]);
    lemma_decimal_digits(r.misc[1]);
    lemma_decimal_digits(r.misc[2]);
    lemma_decimal_digits(r.misc[3]);
    lemma_written_name_clean(r.player_name);
}

} // verus!
