//! Lossy reading of UTF-8 and the clean-up of the player's name.
//!
//! A name is cut by bytes, so the cut may fall inside a character. What is
//! left is read as UTF-8 with repair: every well-formed character is kept, and
//! every byte that belongs to none is read as U+FFFD. Replacement characters
//! and line breaks are then dropped.

use vstd::prelude::*;
use vstd::slice::slice_subrange;
use vstd::utf8::*;

verus! {

/// No more than this many bytes of a name are kept.
pub const NAME_LIMIT: usize = 1023;

/// U+FFFD, which stands for bytes that are no UTF-8.
pub const REPLACEMENT: char = '\u{FFFD}';

/// `char::from_u32` gives the character with the number `i`, and `None` where
/// `i` is no Unicode scalar value.
pub assume_specification[ char::from_u32 ](i: u32) -> (r: Option<char>)
    ensures
        is_scalar(i) ==> r == Some(i as char),
        !is_scalar(i) ==> r is None,
;

/// The text that `bytes` hold, read as UTF-8 with repair. A well-formed
/// character is read as itself. A byte with which no well-formed character
/// begins is read as one replacement character, and reading goes on with the
/// next byte.
pub open spec fn repaired(bytes: Seq<u8>) -> Seq<char>
    decreases bytes.len(),
{
    if bytes.len() == 0 {
        Seq::empty()
    } else if valid_first_scalar(bytes) {
        seq![decode_first_scalar(bytes) as char] + repaired(pop_first_scalar(bytes))
    } else {
        seq![REPLACEMENT] + repaired(bytes.skip(1))
    }
}

/// A name holds no replacement character and no line break.
pub open spec fn kept(c: char) -> bool {
    c != REPLACEMENT && c != '\r' && c != '\n'
}

/// The repaired text of `bytes` without replacement characters, carriage
/// returns and line feeds.
pub open spec fn sanitized(bytes: Seq<u8>) -> Seq<char> {
    repaired(bytes).filter(|c: char| kept(c))
}

/// The first `n` bytes of `bytes`, or all of them where there are fewer.
pub open spec fn prefix(bytes: Seq<u8>, n: nat) -> Seq<u8> {
    if bytes.len() <= n {
        bytes
    } else {
        bytes.take(n as int)
    }
}

/// Whether `b` is the byte of a carriage return or of a line feed.
pub open spec fn is_line_break(b: u8) -> bool {
    b == 0x0D || b == 0x0A
}

/// `bytes` without the bytes of carriage returns and line feeds.
pub open spec fn without_line_breaks(bytes: Seq<u8>) -> Seq<u8> {
    bytes.filter(|b: u8| !is_line_break(b))
}

/// The name that decoding keeps of a raw value: its first `NAME_LIMIT` bytes,
/// sanitized.
pub open spec fn stored_name(value: Seq<char>) -> Seq<char> {
    sanitized(prefix(encode_utf8(value), NAME_LIMIT as nat))
}

/// The name that encoding writes: the bytes of the name without line breaks,
/// cut to `NAME_LIMIT` bytes, sanitized.
pub open spec fn written_name(name: Seq<char>) -> Seq<char> {
    sanitized(prefix(without_line_breaks(encode_utf8(name)), NAME_LIMIT as nat))
}

/// How `sanitized` goes from one character, or one stray byte, to the next.
pub proof fn lemma_sanitized_step(bytes: Seq<u8>)
    requires
        bytes.len() > 0,
    ensures
        valid_first_scalar(bytes) && kept(decode_first_scalar(bytes) as char) ==> sanitized(bytes)
            == seq![decode_first_scalar(bytes) as char] + sanitized(pop_first_scalar(bytes)),
        valid_first_scalar(bytes) && !kept(decode_first_scalar(bytes) as char) ==> sanitized(bytes)
            == sanitized(pop_first_scalar(bytes)),
        !valid_first_scalar(bytes) ==> sanitized(bytes) == sanitized(bytes.skip(1)),
{
    let p = |c: char| kept(c);
    let (head, rest) = if valid_first_scalar(bytes) {
        (decode_first_scalar(bytes) as char, pop_first_scalar(bytes))
    } else {
        (REPLACEMENT, bytes.skip(1))
    };
    assert(repaired(bytes) == seq![head] + repaired(rest));
    Seq::filter_distributes_over_add(seq![head], repaired(rest), p);
    reveal_with_fuel(Seq::filter, 2);
    assert(seq![head].drop_last() == Seq::<char>::empty());
    assert(seq![head].filter(p) == if kept(head) { seq![head] } else { Seq::<char>::empty() });
    assert(Seq::<char>::empty() + sanitized(rest) == sanitized(rest));
}

/// A name as the record keeps it: at most `NAME_LIMIT` bytes of UTF-8, and no
/// replacement character, carriage return or line feed.
pub open spec fn clean_name(name: Seq<char>) -> bool {
    &&& encode_utf8(name).len() <= NAME_LIMIT
    &&& forall|i: int| 0 <= i < name.len() ==> kept(#[trigger] name[i])
}

/// The encoding of a text is that of its first character, then that of the
/// rest.
proof fn lemma_encode_cons(c: char, rest: Seq<char>)
    ensures
        encode_utf8(seq![c] + rest) == encode_scalar(c as u32) + encode_utf8(rest),
{
    let s = seq![c] + rest;
    assert(s.drop_first() == rest);
}

/// A well-formed character at the head of `bytes` encodes to the very bytes it
/// was read from.
proof fn lemma_first_scalar_bytes(bytes: Seq<u8>)
    requires
        valid_first_scalar(bytes),
    ensures
        encode_scalar((decode_first_scalar(bytes) as char) as u32) == take_first_scalar(bytes),
        1 <= length_of_first_scalar(bytes) <= bytes.len(),
{
    let t = take_first_scalar(bytes);
    assert(valid_first_scalar(t));
    assert(pop_first_scalar(t).len() == 0);
    reveal_with_fuel(valid_utf8, 2);
    assert(valid_utf8(t));
    decode_utf8_first_scalar(t);
    assert(take_first_scalar(t) == t);
    assert(decode_first_scalar(t) == decode_first_scalar(bytes));
}

/// Sanitized text is clean, and its encoding is no longer than the bytes it
/// was read from.
pub proof fn lemma_sanitized_clean(bytes: Seq<u8>)
    ensures
        encode_utf8(sanitized(bytes)).len() <= bytes.len(),
        forall|i: int| 0 <= i < sanitized(bytes).len() ==> kept(#[trigger] sanitized(bytes)[i]),
    decreases bytes.len(),
{
    if bytes.len() == 0 {
        assert(repaired(bytes).len() == 0);
        reveal_with_fuel(Seq::filter, 1);
        assert(sanitized(bytes).len() == 0);
    } else {
        lemma_sanitized_step(bytes);
        if valid_first_scalar(bytes) {
            let c = decode_first_scalar(bytes) as char;
            let rest = pop_first_scalar(bytes);
            lemma_first_scalar_bytes(bytes);
            lemma_sanitized_clean(rest);
            if kept(c) {
                lemma_encode_cons(c, sanitized(rest));
            }
        } else {
            lemma_sanitized_clean(bytes.skip(1));
        }
    }
}

/// The name that decoding keeps is clean, whatever the value.
pub proof fn lemma_stored_name_clean(value: Seq<char>)
    ensures
        clean_name(stored_name(value)),
{
    lemma_sanitized_clean(prefix(encode_utf8(value), NAME_LIMIT as nat));
}

/// The name that encoding writes is clean, whatever the name: it holds no
/// line break and no replacement character, and at most `NAME_LIMIT` bytes.
pub proof fn lemma_written_name_clean(name: Seq<char>)
    ensures
        clean_name(written_name(name)),
{
    lemma_sanitized_clean(prefix(without_line_breaks(encode_utf8(name)), NAME_LIMIT as nat));
}

/// Read with repair, the encoding of a text is that text.
pub proof fn lemma_repaired_encoding(text: Seq<char>)
    ensures
        repaired(encode_utf8(text)) == text,
    decreases text.len(),
{
    if text.len() == 0 {
        assert(encode_utf8(text).len() == 0);
    } else {
        let bytes = encode_utf8(text);
        encode_utf8_first_scalar(text);
        char_u32_cast(text[0], decode_first_scalar(bytes));
        assert(pop_first_scalar(bytes) == encode_utf8(text.drop_first()));
        lemma_repaired_encoding(text.drop_first());
        assert(seq![text[0]] + text.drop_first() == text);
    }
}

/// A filter that every item passes changes nothing.
proof fn lemma_filter_all<A>(s: Seq<A>, pred: spec_fn(A) -> bool)
    requires
        forall|i: int| 0 <= i < s.len() ==> pred(#[trigger] s[i]),
    ensures
        s.filter(pred) == s,
    decreases s.len(),
{
    reveal_with_fuel(Seq::filter, 1);
    if s.len() > 0 {
        assert(pred(s[s.len() - 1]));
        assert forall|i: int| 0 <= i < s.drop_last().len() implies pred(#[trigger] s.drop_last()[i]) by {
            assert(s.drop_last()[i] == s[i]);
        }
        lemma_filter_all(s.drop_last(), pred);
        assert(s.drop_last().push(s.last()) == s);
    }
}

/// The bytes of a character that is no line break hold no line-break byte.
proof fn lemma_scalar_bytes_no_line_break(c: char)
    requires
        c != '\r' && c != '\n',
    ensures
        forall|i: int| 0 <= i < encode_scalar(c as u32).len() ==> !is_line_break(#[trigger] encode_scalar(c as u32)[i]),
{
    let v = c as u32;
    char_is_scalar(c);
    assert(v != 0x0D && v != 0x0A);
    assert(has_width_1_encoding(v) ==> leading_byte_width_1(v) != 0x0D && leading_byte_width_1(v) != 0x0A) by (bit_vector)
        requires
            v != 0x0D && v != 0x0A,
    ;
    assert(leading_byte_width_2(v) >= 0x80 && leading_byte_width_3(v) >= 0x80 && leading_byte_width_4(v) >= 0x80
        && last_continuation_byte(v) >= 0x80 && second_last_continuation_byte(v) >= 0x80
        && third_last_continuation_byte(v) >= 0x80) by (bit_vector);
}

/// The encoding of a text without line breaks holds no line-break byte.
pub proof fn lemma_no_line_break_bytes(text: Seq<char>)
    requires
        forall|i: int| 0 <= i < text.len() ==> text[i] != '\r' && text[i] != '\n',
    ensures
        forall|i: int| 0 <= i < encode_utf8(text).len() ==> !is_line_break(#[trigger] encode_utf8(text)[i]),
    decreases text.len(),
{
    if text.len() > 0 {
        let head = encode_scalar(text[0] as u32);
        let tail = encode_utf8(text.drop_first());
        lemma_scalar_bytes_no_line_break(text[0]);
        assert forall|i: int| 0 <= i < text.drop_first().len() implies text.drop_first()[i] != '\r' && text.drop_first()[i] != '\n' by {
            assert(text.drop_first()[i] == text[i + 1]);
        }
        lemma_no_line_break_bytes(text.drop_first());
        assert forall|i: int| 0 <= i < encode_utf8(text).len() implies !is_line_break(#[trigger] encode_utf8(text)[i]) by {
            if i < head.len() {
                assert(encode_utf8(text)[i] == head[i]);
            } else {
                assert(encode_utf8(text)[i] == tail[i - head.len()]);
            }
        }
    }
}

/// Two filters that agree on every item of a sequence keep the same items.
proof fn lemma_filter_agree<A>(s: Seq<A>, p: spec_fn(A) -> bool, q: spec_fn(A) -> bool)
    requires
        forall|i: int| 0 <= i < s.len() ==> p(#[trigger] s[i]) == q(s[i]),
    ensures
        s.filter(p) == s.filter(q),
    decreases s.len(),
{
    reveal_with_fuel(Seq::filter, 1);
    if s.len() > 0 {
        assert(p(s[s.len() - 1]) == q(s[s.len() - 1]));
        assert forall|i: int| 0 <= i < s.drop_last().len() implies p(#[trigger] s.drop_last()[i])
            == q(s.drop_last()[i]) by {
            assert(s.drop_last()[i] == s[i]);
        }
        lemma_filter_agree(s.drop_last(), p, q);
    }
}

/// Bytes without a line-break byte hold no line break when read with repair.
pub proof fn lemma_repaired_no_line_break(bytes: Seq<u8>)
    requires
        forall|i: int| 0 <= i < bytes.len() ==> !is_line_break(#[trigger] bytes[i]),
    ensures
        forall|i: int|
            0 <= i < repaired(bytes).len() ==> (#[trigger] repaired(bytes)[i]) != '\r'
                && repaired(bytes)[i] != '\n',
    decreases bytes.len(),
{
    if bytes.len() > 0 {
        let (head, rest) = if valid_first_scalar(bytes) {
            (decode_first_scalar(bytes) as char, pop_first_scalar(bytes))
        } else {
            (REPLACEMENT, bytes.skip(1))
        };
        assert(repaired(bytes) == seq![head] + repaired(rest));
        if valid_first_scalar(bytes) {
            lemma_first_scalar_bytes(bytes);
            let v = head as u32;
            assert(take_first_scalar(bytes)[0] == bytes[0]);
            assert(!is_line_break(bytes[0]));
            assert(v == 0x0D || v == 0x0A ==> has_width_1_encoding(v) && (leading_byte_width_1(v)
                == 0x0D || leading_byte_width_1(v) == 0x0A)) by (bit_vector);
            assert(head != '\r' && head != '\n');
        }
        assert forall|i: int| 0 <= i < rest.len() implies !is_line_break(#[trigger] rest[i]) by {
            assert(rest[i] == bytes[i + (bytes.len() - rest.len())]);
        }
        lemma_repaired_no_line_break(rest);
        assert forall|i: int| 0 <= i < repaired(bytes).len() implies (#[trigger] repaired(
            bytes,
        )[i]) != '\r' && repaired(bytes)[i] != '\n' by {
            if i > 0 {
                assert(repaired(bytes)[i] == repaired(rest)[i - 1]);
            }
        }
    }
}

/// Once the line-break bytes are gone, repair brings no line break back: what
/// encoding drops from the repaired text are the replacement characters alone.
pub proof fn lemma_written_name_drops_replacements(name: Seq<char>)
    ensures
        written_name(name) == repaired(
            prefix(without_line_breaks(encode_utf8(name)), NAME_LIMIT as nat),
        ).filter(|c: char| c != REPLACEMENT),
{
    let plain = without_line_breaks(encode_utf8(name));
    let cut = prefix(plain, NAME_LIMIT as nat);
    assert forall|i: int| 0 <= i < cut.len() implies !is_line_break(#[trigger] cut[i]) by {
        assert(cut[i] == plain[i]);
        encode_utf8(name).lemma_filter_pred(|b: u8| !is_line_break(b), i);
    }
    lemma_repaired_no_line_break(cut);
    lemma_filter_agree(repaired(cut), |c: char| kept(c), |c: char| c != REPLACEMENT);
}

/// Sanitizing the encoding of a text that holds nothing to drop gives the
/// text.
pub proof fn lemma_sanitized_encoding(text: Seq<char>)
    requires
        forall|i: int| 0 <= i < text.len() ==> kept(#[trigger] text[i]),
    ensures
        sanitized(encode_utf8(text)) == text,
{
    lemma_repaired_encoding(text);
    lemma_filter_all(text, |c: char| kept(c));
}

/// A clean name is written as it is and read as it is.
pub proof fn lemma_clean_name_kept(name: Seq<char>)
    requires
        clean_name(name),
    ensures
        written_name(name) == name,
        stored_name(name) == name,
{
    lemma_no_line_break_bytes(name);
    lemma_filter_all(encode_utf8(name), |b: u8| !is_line_break(b));
    lemma_sanitized_encoding(name);
}

/// An ASCII name without line breaks is written as its first `NAME_LIMIT`
/// characters, and a value of that kind is read as its first `NAME_LIMIT`
/// characters: one character is one byte there.
pub proof fn lemma_ascii_name_cut(name: Seq<char>)
    requires
        is_ascii_chars(name),
        forall|i: int| 0 <= i < name.len() ==> name[i] != '\r' && name[i] != '\n',
    ensures
        written_name(name) == if name.len() <= NAME_LIMIT {
            name
        } else {
            name.take(NAME_LIMIT as int)
        },
        stored_name(name) == written_name(name),
{
    let bytes = encode_utf8(name);
    let cut = if name.len() <= NAME_LIMIT {
        name
    } else {
        name.take(NAME_LIMIT as int)
    };
    is_ascii_chars_encode_utf8(name);
    is_ascii_chars_encode_utf8(cut);
    lemma_no_line_break_bytes(name);
    lemma_filter_all(bytes, |b: u8| !is_line_break(b));
    assert(prefix(bytes, NAME_LIMIT as nat) =~= encode_utf8(cut));
    lemma_sanitized_encoding(cut);
}

/// Reads the character that begins at byte `i`, with the number of bytes it
/// takes; `None` where no well-formed character begins there.
pub fn scalar_at(bytes: &[u8], i: usize) -> (r: Option<(char, usize)>)
    requires
        i < bytes.len(),
    ensures
        match r {
            Some((c, k)) => {
                &&& valid_first_scalar(bytes@.skip(i as int))
                &&& c == decode_first_scalar(bytes@.skip(i as int)) as char
                &&& k == length_of_first_scalar(bytes@.skip(i as int))
                &&& 1 <= k <= bytes.len() - i
            },
            None => !valid_first_scalar(bytes@.skip(i as int)),
        },
{
    let ghost rest = bytes@.skip(i as int);
    let n = bytes.len();
    let b0 = bytes[i];
    assert(rest[0] == b0);
    if b0 <= 0x7f {
        assert(b0 & 0x7f == b0) by (bit_vector)
            requires
                b0 <= 0x7f,
        ;
        return Some((b0 as char, 1));
    }
    if b0 < 0xc0 || b0 > 0xf7 || n - i < 2 {
        return None;
    }
    let b1 = bytes[i + 1];
    assert(rest[1] == b1);
    if b1 < 0x80 || b1 > 0xbf {
        return None;
    }
    if b0 <= 0xdf {
        let cp: u32 = (((b0 & 0x1F) as u32) << 6) | ((b1 & 0x3F) as u32);
        assert(cp <= 0x7FF) by (bit_vector)
            requires
                cp == (((b0 & 0x1F) as u32) << 6) | ((b1 & 0x3F) as u32),
        ;
        if cp < 0x80 {
            return None;
        }
        return match char::from_u32(cp) {
            Some(c) => Some((c, 2)),
            None => None,
        };
    }
    if n - i < 3 {
        return None;
    }
    let b2 = bytes[i + 2];
    assert(rest[2] == b2);
    if b2 < 0x80 || b2 > 0xbf {
        return None;
    }
    if b0 <= 0xef {
        let cp: u32 = (((b0 & 0x0F) as u32) << 12) | (((b1 & 0x3F) as u32) << 6) | ((b2
            & 0x3F) as u32);
        assert(cp <= 0xFFFF) by (bit_vector)
            requires
                cp == (((b0 & 0x0F) as u32) << 12) | (((b1 & 0x3F) as u32) << 6) | ((b2
                    & 0x3F) as u32),
        ;
        if cp < 0x800 || (0xD800 <= cp && cp <= 0xDFFF) {
            return None;
        }
        return match char::from_u32(cp) {
            Some(c) => Some((c, 3)),
            None => None,
        };
    }
    if n - i < 4 {
        return None;
    }
    let b3 = bytes[i + 3];
    assert(rest[3] == b3);
    if b3 < 0x80 || b3 > 0xbf {
        return None;
    }
    let cp: u32 = (((b0 & 0x07) as u32) << 18) | (((b1 & 0x3F) as u32) << 12) | (((b2
        & 0x3F) as u32) << 6) | ((b3 & 0x3F) as u32);
    if cp < 0x10000 || cp > 0x10FFFF {
        return None;
    }
    match char::from_u32(cp) {
        Some(c) => Some((c, 4)),
        None => None,
    }
}

/// Writes the sanitized text of `bytes` at the end of `out`.
pub fn push_sanitized(out: &mut String, bytes: &[u8])
    ensures
        final(out)@ == old(out)@ + sanitized(bytes@),
{
    let n = bytes.len();
    let mut i: usize = 0;
    assert(bytes@.skip(0) == bytes@);
    while i < n
        invariant
            i <= n == bytes.len(),
            old(out)@ + sanitized(bytes@) == out@ + sanitized(bytes@.skip(i as int)),
        decreases n - i,
    {
        let ghost rest = bytes@.skip(i as int);
        proof {
            lemma_sanitized_step(rest);
        }
        match scalar_at(bytes, i) {
            Some((c, k)) => {
                assert(pop_first_scalar(rest) == bytes@.skip(i + k));
                if c != REPLACEMENT && c != '\r' && c != '\n' {
                    out.push(c);
                    assert(out@ + sanitized(bytes@.skip(i + k)) == old(out)@ + sanitized(bytes@));
                }
                i = i + k;
            },
            None => {
                assert(rest.skip(1) == bytes@.skip(i + 1));
                i = i + 1;
            },
        }
    }
    assert(sanitized(bytes@.skip(n as int)) == Seq::<char>::empty()) by {
        assert(bytes@.skip(n as int).len() == 0);
        assert(repaired(bytes@.skip(n as int)) == Seq::<char>::empty());
    }
}

/// The name that decoding keeps of a raw value.
pub fn read_name(value: &str) -> (name: String)
    ensures
        name@ == stored_name(value@),
{
    let bytes = value.as_bytes();
    let n = if bytes.len() <= NAME_LIMIT { bytes.len() } else { NAME_LIMIT };
    let head = slice_subrange(bytes, 0, n);
    assert(head@ == prefix(encode_utf8(value@), NAME_LIMIT as nat));
    let mut name = String::new();
    push_sanitized(&mut name, head);
    name
}

/// Writes a name, as encoding writes it, at the end of `out`.
pub fn push_written_name(out: &mut String, name: &str)
    ensures
        final(out)@ == old(out)@ + written_name(name@),
{
    let bytes = name.as_bytes();
    let mut plain: Vec<u8> = Vec::new();
    let mut i: usize = 0;
    assert(bytes@.take(0) == Seq::<u8>::empty());
    while i < bytes.len()
        invariant
            i <= bytes.len(),
            plain@ == without_line_breaks(bytes@.take(i as int)),
        decreases bytes.len() - i,
    {
        let b = bytes[i];
        assert(bytes@.take(i + 1).drop_last() == bytes@.take(i as int));
        assert(bytes@.take(i + 1).last() == b);
        reveal_with_fuel(Seq::filter, 2);
        if b != 0x0D && b != 0x0A {
            plain.push(b);
        }
        i = i + 1;
    }
    assert(bytes@.take(bytes.len() as int) == bytes@);
    let n = if plain.len() <= NAME_LIMIT { plain.len() } else { NAME_LIMIT };
    let head = slice_subrange(plain.as_slice(), 0, n);
    assert(head@ == prefix(without_line_breaks(encode_utf8(name@)), NAME_LIMIT as nat));
    push_sanitized(out, head);
}

} // verus!
