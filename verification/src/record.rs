//! The save record and its two conversions: from the entries of the `Main`
//! section to a record, and from a record to the text of that section.

use crate::document::{
    entries_view, find_section, list_entries, load_document, parsed_sections, Entries,
};
use crate::laws::{lemma_decode_is_canonical, lemma_decode_nothing};
use crate::repair::{
    clean_name, push_written_name, read_name, stored_name, written_name,
};
use crate::text::{chars_of, decimal, is_word, lowered, parse_u16, parsed_u16, push_decimal};
use vstd::prelude::*;
use vstd::string::StringExecFns;

verus! {

/// The save record.
#[derive(Debug, Clone, PartialEq, Eq, PartialOrd, Ord, Hash)]
pub struct Sharecart {
    /// A map coordinate of ten bits. Written modulo 1024; read as a 16-bit
    /// number (0 where the text is none) modulo 1024.
    pub map_x: u16,
    /// The other map coordinate, handled as `map_x` is.
    pub map_y: u16,
    /// Four free 16-bit numbers. Written in full; read as 0 where the text is
    /// no 16-bit number.
    pub misc: [u16; 4],
    /// The player's name. Written and read without line breaks and
    /// replacement characters, cut to 1023 bytes.
    pub player_name: String,
    /// Eight switches. Written as `TRUE` or `FALSE`; read as on where the text
    /// is `true` in any mix of capitals and small letters.
    pub switch: [bool; 8],
}

/// What a `Sharecart` holds, as plain mathematics.
pub struct Record {
    pub map_x: nat,
    pub map_y: nat,
    pub misc: Seq<nat>,
    pub player_name: Seq<char>,
    pub switch: Seq<bool>,
}

impl View for Sharecart {
    type V = Record;

    open spec fn view(&self) -> Record {
        Record {
            map_x: self.map_x as nat,
            map_y: self.map_y as nat,
            misc: Seq::new(4, |i: int| self.misc@[i] as nat),
            player_name: self.player_name@,
            switch: Seq::new(8, |i: int| self.switch@[i]),
        }
    }
}

impl Record {
    /// The record of all defaults: zeros, an empty name, every switch off.
    pub open spec fn blank() -> Record {
        Record {
            map_x: 0,
            map_y: 0,
            misc: Seq::new(4, |i: int| 0nat),
            player_name: Seq::empty(),
            switch: Seq::new(8, |i: int| false),
        }
    }

    /// What holds of every record that a `Sharecart` holds: four 16-bit
    /// numbers, eight switches, 16-bit coordinates.
    pub open spec fn well_formed(self) -> bool {
        &&& self.map_x <= 0xFFFF
        &&& self.map_y <= 0xFFFF
        &&& self.misc.len() == 4
        &&& forall|i: int| 0 <= i < 4 ==> #[trigger] self.misc[i] <= 0xFFFF
        &&& self.switch.len() == 8
    }

    /// Canonical form: coordinates of ten bits and a clean name.
    pub open spec fn canonical(self) -> bool {
        &&& self.well_formed()
        &&& self.map_x < 1024
        &&& self.map_y < 1024
        &&& clean_name(self.player_name)
    }

    /// The canonical form of a record: its coordinates modulo 1024 and its
    /// name as encoding writes it.
    pub open spec fn normalized(self) -> Record {
        Record {
            map_x: self.map_x % 1024,
            map_y: self.map_y % 1024,
            misc: self.misc,
            player_name: written_name(self.player_name),
            switch: self.switch,
        }
    }
}

impl Default for Sharecart {
    fn default() -> (r: Sharecart)
        ensures
            r@ == Record::blank(),
    {
        let r = Sharecart {
            map_x: 0,
            map_y: 0,
            misc: [0, 0, 0, 0],
            player_name: String::new(),
            switch: [false, false, false, false, false, false, false, false],
        };
        assert(r@.misc =~= Record::blank().misc);
        assert(r@.switch =~= Record::blank().switch);
        r
    }
}

/// The word under which `misc[i]` is read.
pub open spec fn misc_word(i: int) -> Seq<char> {
    if i == 0 {
        "misc0"@
    } else if i == 1 {
        "misc1"@
    } else if i == 2 {
        "misc2"@
    } else {
        "misc3"@
    }
}

/// The word under which `switch[i]` is read.
pub open spec fn switch_word(i: int) -> Seq<char> {
    if i == 0 {
        "switch0"@
    } else if i == 1 {
        "switch1"@
    } else if i == 2 {
        "switch2"@
    } else if i == 3 {
        "switch3"@
    } else if i == 4 {
        "switch4"@
    } else if i == 5 {
        "switch5"@
    } else if i == 6 {
        "switch6"@
    } else {
        "switch7"@
    }
}

/// The value of the last entry whose key, read without regard to ASCII case,
/// is `word`; `None` where no entry has that key.
pub open spec fn last_value(entries: Entries, word: Seq<char>) -> Option<Seq<char>>
    decreases entries.len(),
{
    if entries.len() == 0 {
        None
    } else if lowered(entries.last().0) == word {
        Some(entries.last().1)
    } else {
        last_value(entries.drop_last(), word)
    }
}

/// A 16-bit field: the number that the value writes, 0 where it writes none or
/// the key is absent.
pub open spec fn number(value: Option<Seq<char>>) -> nat {
    match value {
        Some(text) => match parsed_u16(text) {
            Some(n) => n as nat,
            None => 0,
        },
        None => 0,
    }
}

/// A coordinate: the number of the value, modulo 1024.
pub open spec fn coordinate(value: Option<Seq<char>>) -> nat {
    number(value) % 1024
}

/// A switch: on where the value, read without regard to ASCII case, is `true`.
pub open spec fn flag(value: Option<Seq<char>>) -> bool {
    match value {
        Some(text) => lowered(text) == "true"@,
        None => false,
    }
}

/// The name: what is kept of the value, empty where the key is absent.
pub open spec fn name(value: Option<Seq<char>>) -> Seq<char> {
    match value {
        Some(text) => stored_name(text),
        None => Seq::empty(),
    }
}

/// The record that the entries of a section decode to. Each field goes by the
/// last entry with its key; keys that name no field count for nothing.
pub open spec fn decode_entries(entries: Entries) -> Record {
    Record {
        map_x: coordinate(last_value(entries, "mapx"@)),
        map_y: coordinate(last_value(entries, "mapy"@)),
        misc: Seq::new(4, |i: int| number(last_value(entries, misc_word(i)))),
        player_name: name(last_value(entries, "playername"@)),
        switch: Seq::new(8, |i: int| flag(last_value(entries, switch_word(i)))),
    }
}

/// The entries of the section that holds the record: those of `Main`, or, where
/// the document has no such section, those of `main`.
pub open spec fn main_section(sections: Map<Seq<char>, Entries>) -> Option<Entries> {
    if sections.contains_key("Main"@) {
        Some(sections["Main"@])
    } else if sections.contains_key("main"@) {
        Some(sections["main"@])
    } else {
        None
    }
}

/// The record that a parsed text decodes to: the blank record where the text
/// is no INI document or has no main section.
pub open spec fn decode_sections(parsed: Option<Map<Seq<char>, Entries>>) -> Record {
    match parsed {
        Some(sections) => match main_section(sections) {
            Some(entries) => decode_entries(entries),
            None => Record::blank(),
        },
        None => Record::blank(),
    }
}

/// Length and last character of each word that names a field: no two words
/// agree in both.
pub proof fn lemma_word_shapes()
    ensures
        "mapx"@.len() == 4 && "mapx"@.last() == 'x',
        "mapy"@.len() == 4 && "mapy"@.last() == 'y',
        "playername"@.len() == 10,
        forall|i: int| 0 <= i < 4 ==> (#[trigger] misc_word(i)).len() == 5 && misc_word(i).last() == (48 + i) as char,
        forall|i: int| 0 <= i < 8 ==> (#[trigger] switch_word(i)).len() == 7 && switch_word(i).last() == (48 + i) as char,
{
    reveal_strlit("mapx");
    reveal_strlit("mapy");
    reveal_strlit("playername");
    reveal_strlit("misc0");
    reveal_strlit("misc1");
    reveal_strlit("misc2");
    reveal_strlit("misc3");
    reveal_strlit("switch0");
    reveal_strlit("switch1");
    reveal_strlit("switch2");
    reveal_strlit("switch3");
    reveal_strlit("switch4");
    reveal_strlit("switch5");
    reveal_strlit("switch6");
    reveal_strlit("switch7");
}


/// Reads a 16-bit field from its text: 0 where the text is no number.
fn read_number(value: &str) -> (r: u16)
    ensures
        r as nat == number(Some(value@)),
{
    let text = chars_of(value);
    match parse_u16(&text) {
        Some(n) => n,
        None => 0,
    }
}

/// Reads a switch from its text.
fn read_flag(value: &str) -> (r: bool)
    ensures
        r == flag(Some(value@)),
{
    let text = chars_of(value);
    is_word(&text, "true")
}

impl Sharecart {
    /// Decodes the entries of a section, given in the order of the text.
    ///
    /// A key is matched without regard to ASCII case. Where a key comes more
    /// than once the last entry counts; a key that names no field is passed
    /// over, and a field without an entry keeps its default.
    pub fn from_entries(entries: &Vec<(String, String)>) -> (r: Sharecart)
        ensures
            r@ == decode_entries(entries_view(entries@)),
            r@.canonical(),
    {
        let ghost all = entries_view(entries@);
        let mut map_x: u16 = 0;
        let mut map_y: u16 = 0;
        let mut misc0: u16 = 0;
        let mut misc1: u16 = 0;
        let mut misc2: u16 = 0;
        let mut misc3: u16 = 0;
        let mut player_name = String::new();
        let mut switch0 = false;
        let mut switch1 = false;
        let mut switch2 = false;
        let mut switch3 = false;
        let mut switch4 = false;
        let mut switch5 = false;
        let mut switch6 = false;
        let mut switch7 = false;
        let mut i: usize = 0;
        assert(all.take(0).len() == 0);
        while i < entries.len()
            invariant
                i <= entries.len(),
                all == entries_view(entries@),
                map_x as nat == coordinate(last_value(all.take(i as int), "mapx"@)),
                map_y as nat == coordinate(last_value(all.take(i as int), "mapy"@)),
                misc0 as nat == number(last_value(all.take(i as int), misc_word(0))),
                misc1 as nat == number(last_value(all.take(i as int), misc_word(1))),
                misc2 as nat == number(last_value(all.take(i as int), misc_word(2))),
                misc3 as nat == number(last_value(all.take(i as int), misc_word(3))),
                player_name@ == name(last_value(all.take(i as int), "playername"@)),
                switch0 == flag(last_value(all.take(i as int), switch_word(0))),
                switch1 == flag(last_value(all.take(i as int), switch_word(1))),
                switch2 == flag(last_value(all.take(i as int), switch_word(2))),
                switch3 == flag(last_value(all.take(i as int), switch_word(3))),
                switch4 == flag(last_value(all.take(i as int), switch_word(4))),
                switch5 == flag(last_value(all.take(i as int), switch_word(5))),
                switch6 == flag(last_value(all.take(i as int), switch_word(6))),
                switch7 == flag(last_value(all.take(i as int), switch_word(7))),
            decreases entries.len() - i,
        {
            let key = chars_of(entries[i].0.as_str());
            let value = entries[i].1.as_str();
            proof {
                lemma_word_shapes();
                let next = all.take(i + 1);
                assert(next.drop_last() == all.take(i as int));
                assert(next.last() == (key@, value@));
            }
            if is_word(&key, "mapx") {
                map_x = read_number(value) % 1024;
            } else if is_word(&key, "mapy") {
                map_y = read_number(value) % 1024;
            } else if is_word(&key, "misc0") {
                misc0 = read_number(value);
            } else if is_word(&key, "misc1") {
                misc1 = read_number(value);
            } else if is_word(&key, "misc2") {
                misc2 = read_number(value);
            } else if is_word(&key, "misc3") {
                misc3 = read_number(value);
            } else if is_word(&key, "playername") {
                player_name = read_name(value);
            } else if is_word(&key, "switch0") {
                switch0 = read_flag(value);
            } else if is_word(&key, "switch1") {
                switch1 = read_flag(value);
            } else if is_word(&key, "switch2") {
                switch2 = read_flag(value);
            } else if is_word(&key, "switch3") {
                switch3 = read_flag(value);
            } else if is_word(&key, "switch4") {
                switch4 = read_flag(value);
            } else if is_word(&key, "switch5") {
                switch5 = read_flag(value);
            } else if is_word(&key, "switch6") {
                switch6 = read_flag(value);
            } else if is_word(&key, "switch7") {
                switch7 = read_flag(value);
            }
            i = i + 1;
        }
        assert(all.take(entries.len() as int) == all);
        let r = Sharecart {
            map_x,
            map_y,
            misc: [misc0, misc1, misc2, misc3],
            player_name,
            switch: [switch0, switch1, switch2, switch3, switch4, switch5, switch6, switch7],
        };
        assert(r@.misc =~= decode_entries(all).misc);
        assert(r@.switch =~= decode_entries(all).switch);
        proof {
            lemma_decode_is_canonical(all);
        }
        r
    }

    /// Decodes a save text.
    ///
    /// Decoding never fails. A text that is no INI document, or that has
    /// neither a section `Main` nor a section `main`, gives the record of all
    /// defaults. Otherwise the entries of that section are decoded as
    /// `from_entries` says.
    pub fn from_str(buf: &str) -> (r: Sharecart)
        ensures
            r@ == decode_sections(parsed_sections(buf@)),
            r@.canonical(),
    {
        proof {
            lemma_decode_nothing();
        }
        match load_document(buf) {
            Ok(doc) => {
                let section = match find_section(&doc, "Main") {
                    Some(section) => Some(section),
                    None => find_section(&doc, "main"),
                };
                match section {
                    Some(section) => {
                        let entries = list_entries(section);
                        Sharecart::from_entries(&entries)
                    },
                    None => Sharecart::default(),
                }
            },
            Err(_) => Sharecart::default(),
        }
    }
}

/// The text of a switch.
pub open spec fn truth(on: bool) -> Seq<char> {
    if on {
        "TRUE"@
    } else {
        "FALSE"@
    }
}

/// The entries that a record is written as, in the order of the text: the
/// coordinates modulo 1024, the four numbers, the name as it is written, the
/// eight switches.
#[verifier::opaque]
pub open spec fn encode_entries(r: Record) -> Entries {
    seq![
        ("MapX"@, decimal(r.map_x % 1024)),
        ("MapY"@, decimal(r.map_y % 1024)),
        ("Misc0"@, decimal(r.misc[0])),
        ("Misc1"@, decimal(r.misc[1])),
        ("Misc2"@, decimal(r.misc[2])),
        ("Misc3"@, decimal(r.misc[3])),
        ("PlayerName"@, written_name(r.player_name)),
        ("Switch0"@, truth(r.switch[0])),
        ("Switch1"@, truth(r.switch[1])),
        ("Switch2"@, truth(r.switch[2])),
        ("Switch3"@, truth(r.switch[3])),
        ("Switch4"@, truth(r.switch[4])),
        ("Switch5"@, truth(r.switch[5])),
        ("Switch6"@, truth(r.switch[6])),
        ("Switch7"@, truth(r.switch[7])),
    ]
}

/// The fifteen entries of `encode_entries`, one by one.
pub proof fn lemma_encode_entries(r: Record)
    ensures
        encode_entries(r).len() == 15,
        encode_entries(r)[0] == ("MapX"@, decimal(r.map_x % 1024)),
        encode_entries(r)[1] == ("MapY"@, decimal(r.map_y % 1024)),
        encode_entries(r)[2] == ("Misc0"@, decimal(r.misc[0])),
        encode_entries(r)[3] == ("Misc1"@, decimal(r.misc[1])),
        encode_entries(r)[4] == ("Misc2"@, decimal(r.misc[2])),
        encode_entries(r)[5] == ("Misc3"@, decimal(r.misc[3])),
        encode_entries(r)[6] == ("PlayerName"@, written_name(r.player_name)),
        encode_entries(r)[7] == ("Switch0"@, truth(r.switch[0])),
        encode_entries(r)[8] == ("Switch1"@, truth(r.switch[1])),
        encode_entries(r)[9] == ("Switch2"@, truth(r.switch[2])),
        encode_entries(r)[10] == ("Switch3"@, truth(r.switch[3])),
        encode_entries(r)[11] == ("Switch4"@, truth(r.switch[4])),
        encode_entries(r)[12] == ("Switch5"@, truth(r.switch[5])),
        encode_entries(r)[13] == ("Switch6"@, truth(r.switch[6])),
        encode_entries(r)[14] == ("Switch7"@, truth(r.switch[7])),
{
    reveal(encode_entries);
}

/// One line of the text: key, `=`, value, line feed.
pub open spec fn line(key: Seq<char>, value: Seq<char>) -> Seq<char> {
    key + seq!['='] + value + seq!['\n']
}

/// The lines of the first `n` entries, one after the other.
pub open spec fn lines(entries: Entries, n: nat) -> Seq<char>
    decreases n,
{
    if n == 0 {
        Seq::empty()
    } else {
        lines(entries, (n - 1) as nat) + line(entries[n - 1].0, entries[n - 1].1)
    }
}

/// The text of a record: the header line `[Main]`, then one line for each of
/// its entries.
pub open spec fn encode_text(r: Record) -> Seq<char> {
    "[Main]\n"@ + lines(encode_entries(r), encode_entries(r).len())
}

/// A text that holds the first `k` lines holds the first `k + 1` once the
/// next line is written.
proof fn lemma_next_line(head: Seq<char>, entries: Entries, k: nat, before: Seq<char>, after: Seq<char>)
    requires
        before == head + lines(entries, k),
        after == before + line(entries[k as int].0, entries[k as int].1),
    ensures
        after == head + lines(entries, k + 1),
{
    assert(lines(entries, k + 1) == lines(entries, k) + line(entries[k as int].0, entries[k as int].1));
}

fn push_key(out: &mut String, label: &str)
    ensures
        final(out)@ == old(out)@ + label@ + seq!['='],
{
    out.append(label);
    out.push('=');
    assert(out@ == old(out)@ + label@ + seq!['=']);
}

fn end_line(out: &mut String, Ghost(start): Ghost<Seq<char>>, Ghost(key): Ghost<Seq<char>>, Ghost(value): Ghost<Seq<char>>)
    requires
        old(out)@ == start + key + seq!['='] + value,
    ensures
        final(out)@ == start + line(key, value),
{
    out.push('\n');
    assert(out@ == start + line(key, value));
}

fn push_number_line(out: &mut String, label: &str, x: u16)
    ensures
        final(out)@ == old(out)@ + line(label@, decimal(x as nat)),
{
    push_key(out, label);
    push_decimal(out, x);
    end_line(out, Ghost(old(out)@), Ghost(label@), Ghost(decimal(x as nat)));
}

fn push_flag_line(out: &mut String, label: &str, on: bool)
    ensures
        final(out)@ == old(out)@ + line(label@, truth(on)),
{
    push_key(out, label);
    if on {
        out.append("TRUE");
    } else {
        out.append("FALSE");
    }
    end_line(out, Ghost(old(out)@), Ghost(label@), Ghost(truth(on)));
}

fn push_name_line(out: &mut String, label: &str, name: &str)
    ensures
        final(out)@ == old(out)@ + line(label@, written_name(name@)),
{
    push_key(out, label);
    push_written_name(out, name);
    end_line(out, Ghost(old(out)@), Ghost(label@), Ghost(written_name(name@)));
}

impl Sharecart {
    /// Encodes the record as the text of an INI document.
    ///
    /// The text is the line `[Main]` and fifteen lines `Key=Value` in a fixed
    /// order, each ended by one line feed.
    pub fn to_string(&self) -> (s: String)
        ensures
            s@ == encode_text(self@),
    {
        let ghost e = encode_entries(self@);
        let ghost head = "[Main]\n"@;
        let mut out = String::new();
        out.append("[Main]\n");
        let ghost mut done = out@;
        proof {
            lemma_encode_entries(self@);
            assert(out@ == head + lines(e, 0));
        }
        push_number_line(&mut out, "MapX", self.map_x % 1024);
        proof {
            lemma_next_line(head, e, 0, done, out@);
            done = out@;
        }
        push_number_line(&mut out, "MapY", self.map_y % 1024);
        proof {
            lemma_next_line(head, e, 1, done, out@);
            done = out@;
        }
        push_number_line(&mut out, "Misc0", self.misc[0]);
        proof {
            lemma_next_line(head, e, 2, done, out@);
            done = out@;
        }
        push_number_line(&mut out, "Misc1", self.misc[1]);
        proof {
            lemma_next_line(head, e, 3, done, out@);
            done = out@;
        }
        push_number_line(&mut out, "Misc2", self.misc[2]);
        proof {
            lemma_next_line(head, e, 4, done, out@);
            done = out@;
        }
        push_number_line(&mut out, "Misc3", self.misc[3]);
        proof {
            lemma_next_line(head, e, 5, done, out@);
            done = out@;
        }
        push_name_line(&mut out, "PlayerName", self.player_name.as_str());
        proof {
            lemma_next_line(head, e, 6, done, out@);
            done = out@;
        }
        push_flag_line(&mut out, "Switch0", self.switch[0]);
        proof {
            lemma_next_line(head, e, 7, done, out@);
            done = out@;
        }
        push_flag_line(&mut out, "Switch1", self.switch[1]);
        proof {
            lemma_next_line(head, e, 8, done, out@);
            done = out@;
        }
        push_flag_line(&mut out, "Switch2", self.switch[2]);
        proof {
            lemma_next_line(head, e, 9, done, out@);
            done = out@;
        }
        push_flag_line(&mut out, "Switch3", self.switch[3]);
        proof {
            lemma_next_line(head, e, 10, done, out@);
            done = out@;
        }
        push_flag_line(&mut out, "Switch4", self.switch[4]);
        proof {
            lemma_next_line(head, e, 11, done, out@);
            done = out@;
        }
        push_flag_line(&mut out, "Switch5", self.switch[5]);
        proof {
            lemma_next_line(head, e, 12, done, out@);
            done = out@;
        }
        push_flag_line(&mut out, "Switch6", self.switch[6]);
        proof {
            lemma_next_line(head, e, 13, done, out@);
            done = out@;
        }
        push_flag_line(&mut out, "Switch7", self.switch[7]);
        proof {
            lemma_next_line(head, e, 14, done, out@);
            done = out@;
        }
        out
    }
}

} // verus!
