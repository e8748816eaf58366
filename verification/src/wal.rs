//! The write-ahead log: one line per entry, each with a checksum.
//!
//! A line is `<checksum>|<payload>`, the checksum being eight hexadecimal digits of the FNV-1a
//! hash of the payload. Lines without a checksum are payloads as they stand.

use crate::digits::{
    hex8, hex_text, hex_value, is_hex8, is_hex_digit, lemma_hex_round_trip, parse_hex8,
};
use crate::float::{narrow, narrow_f64};
use crate::json::{
    as_items, as_number, as_text, items_of, json_parse, json_tree, json_trees, member, member_of,
    number_of, parse_value, text_of, JsonTree,
};
use crate::text::{
    first_place, lemma_first_place, lemma_first_place_is, lemma_pieces_extend, lemma_pieces_nonempty,
    lemma_trimmed, pieces, same_text, split_once, text_from_utf8, texts, trim, trimmed, whitespace,
};
use vstd::prelude::*;
use vstd::string::*;
use vstd::slice::slice_subrange;
use vstd::utf8::{
    decode_utf8, encode_scalar, encode_utf8, encode_utf8_decode_utf8, encode_utf8_valid_utf8,
    has_width_1_encoding, last_continuation_byte, leading_byte_width_1, leading_byte_width_2,
    leading_byte_width_3, leading_byte_width_4, second_last_continuation_byte,
    third_last_continuation_byte, valid_utf8,
};

verus! {

// ── checksum ─────────────────────────────────────────────────────────────────

/// The FNV-1a hash of `data` in 32 bits.
pub open spec fn fnv1a(data: Seq<u8>) -> u32
    decreases data.len(),
{
    if data.len() == 0 {
        2_166_136_261
    } else {
        (((fnv1a(data.drop_last()) ^ data.last() as u32) as nat * 16_777_619) % 0x1_0000_0000)
            as u32
    }
}

/// FNV-1a, 32 bits.
pub fn fnv1a32(data: &[u8]) -> (r: u32)
    ensures
        r == fnv1a(data@),
{
    let mut hash: u32 = 2_166_136_261;
    let mut i: usize = 0;
    proof {
        assert(data@.take(0) =~= Seq::empty());
    }
    while i < data.len()
        invariant
            i <= data@.len(),
            hash == fnv1a(data@.take(i as int)),
        decreases data@.len() - i,
    {
        proof {
            assert(data@.take(i + 1).drop_last() =~= data@.take(i as int));
        }
        hash = hash ^ (data[i] as u32);
        hash = hash.wrapping_mul(16_777_619);
        i += 1;
    }
    proof {
        assert(data@.take(i as int) =~= data@);
    }
    hash
}

/// The checksum of a text: the hash of its UTF-8 bytes.
pub open spec fn checksum(text: Seq<char>) -> u32 {
    fnv1a(encode_utf8(text))
}

// ── lines ────────────────────────────────────────────────────────────────────

/// A payload behind a checksum.
pub open spec fn checked_line(sum: u32, payload: Seq<char>) -> Seq<char> {
    hex_text(sum as nat, 8).push('|') + payload
}

/// The line of an entry, with its end.
pub open spec fn wal_line_text(payload: Seq<char>) -> Seq<char> {
    checked_line(checksum(payload), payload).push('\n')
}

/// The lines of a list of entries.
pub open spec fn wal_text(payloads: Seq<Seq<char>>) -> Seq<char>
    decreases payloads.len(),
{
    if payloads.len() == 0 {
        Seq::empty()
    } else {
        wal_text(payloads.drop_last()) + wal_line_text(payloads.last())
    }
}

/// The payload of a line: nothing if the line is blank or its checksum does not match.
pub open spec fn line_payload(line: Seq<char>) -> Option<Seq<char>> {
    let t = trimmed(line);
    let bar = first_place(t, '|');
    if t.len() == 0 {
        None
    } else if bar < t.len() && is_hex8(t.take(bar)) {
        if hex_value(t.take(bar)) == checksum(t.skip(bar + 1)) {
            Some(t.skip(bar + 1))
        } else {
            None
        }
    } else {
        Some(t)
    }
}

/// The payloads of a log, in order.
pub open spec fn wal_payloads_of(text: Seq<char>) -> Seq<Seq<char>> {
    pieces(text, '\n').filter_map(|line: Seq<char>| line_payload(line))
}

/// Writes the line of an entry.
pub fn wal_line(payload: &str) -> (r: String)
    ensures
        r@ == wal_line_text(payload@),
{
    let sum: u32 = fnv1a32(payload.as_bytes());
    let mut line: String = hex8(sum);
    line.push('|');
    line.append(payload);
    line.push('\n');
    line
}

/// Writes the lines of a batch of entries, for one write.
pub fn wal_lines(payloads: &Vec<String>) -> (r: String)
    ensures
        r@ == wal_text(texts(payloads@)),
{
    let mut r: String = String::new();
    let mut i: usize = 0;
    let ghost all = texts(payloads@);
    proof {
        assert(all.take(0) =~= Seq::empty());
    }
    while i < payloads.len()
        invariant
            all == texts(payloads@),
            i <= payloads@.len(),
            r@ == wal_text(all.take(i as int)),
        decreases payloads@.len() - i,
    {
        proof {
            assert(all.take(i + 1).drop_last() =~= all.take(i as int));
        }
        let line = wal_line(payloads[i].as_str());
        r.append(line.as_str());
        i += 1;
    }
    proof {
        assert(all.take(i as int) =~= all);
    }
    r
}

/// Reads the payload of a line.
pub fn read_line(line: &str) -> (r: Option<String>)
    ensures
        match r {
            Some(p) => line_payload(line@) == Some(p@),
            None => line_payload(line@) is None,
        },
{
    let t = trim(line);
    if t.as_str().is_empty() {
        return None;
    }
    match split_once(t.as_str(), '|') {
        Some((sum, payload)) => match parse_hex8(sum.as_str()) {
            Some(expected) => {
                let actual: u32 = fnv1a32(payload.as_str().as_bytes());
                if actual != expected {
                    None
                } else {
                    Some(payload)
                }
            },
            None => Some(t),
        },
        None => Some(t),
    }
}

/// The pieces of `bytes` between the copies of `b`.
pub open spec fn byte_pieces(bytes: Seq<u8>, b: u8) -> Seq<Seq<u8>>
    decreases bytes.len(),
{
    if bytes.len() == 0 {
        seq![Seq::<u8>::empty()]
    } else {
        let before = byte_pieces(bytes.drop_last(), b);
        if bytes.last() == b {
            before.push(Seq::<u8>::empty())
        } else {
            before.drop_last().push(before.last().push(bytes.last()))
        }
    }
}

/// The payload of a line of bytes: nothing if it is not UTF-8.
pub open spec fn byte_line_payload(line: Seq<u8>) -> Option<Seq<char>> {
    if valid_utf8(line) {
        line_payload(decode_utf8(line))
    } else {
        None
    }
}

/// The payloads in the bytes of a log, in order.
pub open spec fn log_payloads(bytes: Seq<u8>) -> Seq<Seq<char>> {
    byte_pieces(bytes, 10).filter_map(|line: Seq<u8>| byte_line_payload(line))
}

/// Reads the payload of a line of bytes.
fn read_byte_line(bytes: &[u8], from: usize, to: usize) -> (r: Option<String>)
    requires
        from <= to <= bytes@.len(),
    ensures
        match r {
            Some(p) => byte_line_payload(bytes@.subrange(from as int, to as int)) == Some(p@),
            None => byte_line_payload(bytes@.subrange(from as int, to as int)) is None,
        },
{
    match text_from_utf8(slice_subrange(bytes, from, to)) {
        Some(line) => read_line(line),
        None => None,
    }
}

/// Reads the payloads of a log. Blank lines, lines that are not UTF-8 and lines whose checksum does
/// not match are skipped.
pub fn wal_payloads(bytes: &[u8]) -> (r: Vec<String>)
    ensures
        texts(r@) == log_payloads(bytes@),
{
    let mut r: Vec<String> = Vec::new();
    let mut start: usize = 0;
    let mut i: usize = 0;
    let ghost read = |line: Seq<u8>| byte_line_payload(line);
    let ghost mut done = Seq::<Seq<u8>>::empty();
    proof {
        assert(bytes@.take(0) =~= Seq::empty());
        assert(done.push(bytes@.subrange(0, 0)) =~= byte_pieces(bytes@.take(0), 10));
        assert(texts(r@) =~= done.filter_map(read));
    }
    while i < bytes.len()
        invariant
            start <= i <= bytes@.len(),
            read == (|line: Seq<u8>| byte_line_payload(line)),
            done.push(bytes@.subrange(start as int, i as int)) == byte_pieces(
                bytes@.take(i as int),
                10,
            ),
            texts(r@) == done.filter_map(read),
        decreases bytes@.len() - i,
    {
        let ghost before = byte_pieces(bytes@.take(i as int), 10);
        proof {
            assert(bytes@.take(i + 1).drop_last() =~= bytes@.take(i as int));
        }
        if bytes[i] == 10 {
            let ghost line = bytes@.subrange(start as int, i as int);
            let ghost was = texts(r@);
            if let Some(p) = read_byte_line(bytes, start, i) {
                r.push(p);
                proof {
                    assert(texts(r@) =~= was + seq![p@]);
                }
            }
            proof {
                assert(done.push(line).drop_last() =~= done);
                assert(done.push(line).filter_map(read) == texts(r@));
                done = done.push(line);
                assert(bytes@.subrange(i + 1, i + 1) =~= Seq::empty());
            }
            start = i + 1;
        } else {
            proof {
                assert(bytes@.subrange(start as int, i + 1) =~= bytes@.subrange(
                    start as int,
                    i as int,
                ).push(bytes@[i as int]));
                assert(before.drop_last() =~= done);
            }
        }
        i += 1;
    }
    let ghost line = bytes@.subrange(start as int, i as int);
    let ghost was = texts(r@);
    if let Some(p) = read_byte_line(bytes, start, i) {
        r.push(p);
        proof {
            assert(texts(r@) =~= was + seq![p@]);
        }
    }
    proof {
        assert(bytes@.take(i as int) =~= bytes@);
        assert(done.push(line).drop_last() =~= done);
    }
    r
}

// ── what a log gives back ────────────────────────────────────────────────────

/// A payload that a line can carry: on one line, and not ending in white space.
pub open spec fn fits_line(payload: Seq<char>) -> bool {
    &&& forall|i: int| 0 <= i < payload.len() ==> #[trigger] payload[i] != '\n'
    &&& payload.len() > 0 ==> !whitespace(payload.last())
}

/// A line with a matching checksum carries its payload.
proof fn lemma_checked_line(sum: u32, payload: Seq<char>)
    requires
        payload.len() > 0 ==> !whitespace(payload.last()),
    ensures
        line_payload(checked_line(sum, payload)) == (if sum == checksum(payload) {
            Some(payload)
        } else {
            None
        }),
{
    let line = checked_line(sum, payload);
    let hex = hex_text(sum as nat, 8);
    lemma_hex_round_trip(sum);
    lemma_trimmed(line);
    assert(is_hex_digit(hex[0]));
    assert(line[0] == hex[0]);
    if payload.len() == 0 {
        assert(line.last() == '|');
    } else {
        assert(line.last() == payload.last());
    }
    assert(trimmed(line) == line);
    assert forall|i: int| 0 <= i < 8 implies #[trigger] line[i] != '|' by {
        assert(line[i] == hex[i]);
        assert(is_hex_digit(hex[i]));
    }
    lemma_first_place_is(line, '|', 8);
    assert(line.take(8) =~= hex);
    assert(line.skip(9) =~= payload);
}

/// An entry whose checksum does not match is skipped.
pub proof fn law_corrupt_entry_is_skipped(sum: u32, payload: Seq<char>)
    requires
        fits_line(payload),
        sum != checksum(payload),
    ensures
        line_payload(checked_line(sum, payload)) is None,
{
    lemma_checked_line(sum, payload);
}

/// A log ends at the end of a line.
pub open spec fn complete(log: Seq<char>) -> bool {
    log.len() == 0 || log.last() == '\n'
}

/// Appending the line of an entry to a complete log adds the entry to what the log gives back, and
/// leaves the log complete.
pub proof fn law_append_adds_entry(log: Seq<char>, payload: Seq<char>)
    requires
        complete(log),
        fits_line(payload),
    ensures
        wal_payloads_of(log + wal_line_text(payload)) == wal_payloads_of(log).push(payload),
        complete(log + wal_line_text(payload)),
{
    let read = |line: Seq<char>| line_payload(line);
    let line = checked_line(checksum(payload), payload);
    let empty = Seq::<char>::empty();
    lemma_pieces_nonempty(log, '\n');
    let front = pieces(log, '\n').drop_last();
    assert(pieces(log, '\n').last() == empty) by {
        if log.len() > 0 {
            lemma_pieces_nonempty(log.drop_last(), '\n');
        }
    }
    assert(pieces(log, '\n') =~= front.push(empty));
    lemma_hex_round_trip(checksum(payload));
    assert forall|i: int| 0 <= i < line.len() implies #[trigger] line[i] != '\n' by {
        if i < 8 {
            assert(line[i] == hex_text(checksum(payload) as nat, 8)[i]);
            assert(is_hex_digit(line[i]));
        } else if i > 8 {
            assert(line[i] == payload[i - 9]);
        }
    }
    lemma_pieces_extend(log, line, '\n');
    assert(empty + line =~= line);
    let whole = log + wal_line_text(payload);
    assert(whole.drop_last() =~= log + line);
    assert(pieces(whole, '\n') =~= front.push(line).push(empty));
    lemma_checked_line(checksum(payload), payload);
    lemma_trimmed(empty);
    assert(line_payload(empty) is None);
    assert(front.push(empty).drop_last() =~= front);
    assert(front.push(line).push(empty).drop_last() =~= front.push(line));
    assert(front.push(line).drop_last() =~= front);
    assert(front.push(empty).filter_map(read) == front.filter_map(read));
    assert(front.push(line).filter_map(read) == front.filter_map(read) + seq![payload]);
    assert(wal_payloads_of(whole) =~= wal_payloads_of(log).push(payload));
}

/// Reading a log gives back the entries that were written to it, in order.
pub proof fn law_log_gives_back_entries(payloads: Seq<Seq<char>>)
    requires
        forall|i: int| 0 <= i < payloads.len() ==> fits_line(#[trigger] payloads[i]),
    ensures
        wal_payloads_of(wal_text(payloads)) == payloads,
        complete(wal_text(payloads)),
    decreases payloads.len(),
{
    if payloads.len() == 0 {
        let read = |line: Seq<char>| line_payload(line);
        let empty = Seq::<char>::empty();
        lemma_trimmed(empty);
        let none = Seq::<Seq<char>>::empty();
        assert(pieces(empty, '\n').drop_last() =~= none);
        assert(pieces(empty, '\n').last() == empty);
        assert(none.filter_map(read) == none);
        assert(line_payload(empty) is None);
        assert(pieces(empty, '\n').filter_map(read) == none);
        assert(wal_payloads_of(empty) =~= Seq::empty());
    } else {
        let rest = payloads.drop_last();
        assert forall|i: int| 0 <= i < rest.len() implies fits_line(#[trigger] rest[i]) by {
            assert(fits_line(payloads[i]));
        }
        law_log_gives_back_entries(rest);
        assert(fits_line(payloads[payloads.len() - 1]));
        law_append_adds_entry(wal_text(rest), payloads.last());
        assert(rest.push(payloads.last()) =~= payloads);
    }
}

/// The lines of two lists of entries, one after the other, are the lines of the joined list: a batch
/// leaves the log as its entries would one by one, and an empty one leaves it as it is.
pub proof fn law_batch_writes_its_lines(a: Seq<Seq<char>>, b: Seq<Seq<char>>)
    ensures
        wal_text(a + b) == wal_text(a) + wal_text(b),
        b.len() == 0 ==> wal_text(a + b) == wal_text(a),
    decreases b.len(),
{
    if b.len() == 0 {
        assert(a + b =~= a);
        assert(wal_text(a) + wal_text(b) =~= wal_text(a));
    } else {
        law_batch_writes_its_lines(a, b.drop_last());
        assert((a + b).drop_last() =~= a + b.drop_last());
        assert((a + b).last() == b.last());
        let line = wal_line_text(b.last());
        assert((wal_text(a) + wal_text(b.drop_last())) + line =~= wal_text(a) + (wal_text(
            b.drop_last(),
        ) + line));
    }
}

// ── bytes and text ───────────────────────────────────────────────────────────

proof fn lemma_high_bytes(v: u32)
    ensures
        leading_byte_width_2(v) >= 0x80,
        leading_byte_width_3(v) >= 0x80,
        leading_byte_width_4(v) >= 0x80,
        last_continuation_byte(v) >= 0x80,
        second_last_continuation_byte(v) >= 0x80,
        third_last_continuation_byte(v) >= 0x80,
{
    assert(0xC0 | ((v >> 6) & 0x1F) as u8 >= 0x80) by (bit_vector);
    assert(0xE0 | ((v >> 12) & 0xF) as u8 >= 0x80) by (bit_vector);
    assert(0xF0 | ((v >> 18) & 0x7) as u8 >= 0x80) by (bit_vector);
    assert(0x80 | (v & 0x3F) as u8 >= 0x80) by (bit_vector);
    assert(0x80 | ((v >> 6) & 0x3F) as u8 >= 0x80) by (bit_vector);
    assert(0x80 | ((v >> 12) & 0x3F) as u8 >= 0x80) by (bit_vector);
}

/// Only the line break has the byte of the line break in its encoding.
proof fn lemma_scalar_bytes(c: char)
    ensures
        c == '\n' ==> encode_scalar(c as u32) == seq![10u8],
        c != '\n' ==> forall|i: int|
            0 <= i < encode_scalar(c as u32).len() ==> #[trigger] encode_scalar(c as u32)[i] != 10,
{
    let v = c as u32;
    lemma_high_bytes(v);
    if has_width_1_encoding(v) {
        assert(leading_byte_width_1(v) as u32 == v) by {
            assert(v <= 0x7f ==> (v & 0x7f) as u8 as u32 == v) by (bit_vector);
        }
    }
}

proof fn lemma_encode_push(s: Seq<char>, c: char)
    ensures
        encode_utf8(s.push(c)) == encode_utf8(s) + encode_scalar(c as u32),
    decreases s.len(),
{
    let t = s.push(c);
    let last = encode_scalar(c as u32);
    if s.len() == 0 {
        assert(t.drop_first() =~= Seq::empty());
        assert(encode_utf8(t.drop_first()) =~= Seq::<u8>::empty());
        assert(t[0] == c);
        assert(encode_utf8(t) == last + encode_utf8(t.drop_first()));
        assert(encode_utf8(t) =~= encode_utf8(s) + last);
    } else {
        let first = encode_scalar(s[0] as u32);
        let rest = encode_utf8(s.drop_first());
        lemma_encode_push(s.drop_first(), c);
        assert(t.drop_first() =~= s.drop_first().push(c));
        assert(t[0] == s[0]);
        assert(encode_utf8(t) == first + encode_utf8(t.drop_first()));
        assert(encode_utf8(s) == first + rest);
        assert(first + (rest + last) =~= (first + rest) + last);
    }
}

proof fn lemma_byte_pieces_nonempty(bytes: Seq<u8>, b: u8)
    ensures
        byte_pieces(bytes, b).len() >= 1,
    decreases bytes.len(),
{
    if bytes.len() > 0 {
        lemma_byte_pieces_nonempty(bytes.drop_last(), b);
    }
}

proof fn lemma_byte_pieces_extend(a: Seq<u8>, s: Seq<u8>, b: u8)
    requires
        forall|i: int| 0 <= i < s.len() ==> #[trigger] s[i] != b,
    ensures
        byte_pieces(a + s, b) == byte_pieces(a, b).drop_last().push(byte_pieces(a, b).last() + s),
    decreases s.len(),
{
    lemma_byte_pieces_nonempty(a, b);
    if s.len() == 0 {
        assert(a + s =~= a);
        assert(byte_pieces(a, b).last() + s =~= byte_pieces(a, b).last());
        assert(byte_pieces(a, b) =~= byte_pieces(a, b).drop_last().push(byte_pieces(a, b).last()));
    } else {
        let t = s.drop_last();
        assert forall|i: int| 0 <= i < t.len() implies #[trigger] t[i] != b by {
            assert(s[i] != b);
        }
        lemma_byte_pieces_extend(a, t, b);
        assert((a + s).drop_last() =~= a + t);
        assert((a + s).last() == s.last());
        assert(s[s.len() - 1] != b);
        let p = byte_pieces(a + t, b);
        assert(p.drop_last() =~= byte_pieces(a, b).drop_last());
        assert((byte_pieces(a, b).last() + t).push(s.last()) =~= byte_pieces(a, b).last() + s);
    }
}

/// The lines of encoded text are the encoded lines of the text.
proof fn lemma_encoded_lines(text: Seq<char>)
    ensures
        byte_pieces(encode_utf8(text), 10) == pieces(text, '\n').map_values(
            |line: Seq<char>| encode_utf8(line),
        ),
    decreases text.len(),
{
    let enc = |line: Seq<char>| encode_utf8(line);
    if text.len() == 0 {
        assert(byte_pieces(encode_utf8(text), 10) =~= pieces(text, '\n').map_values(enc));
    } else {
        let rest = text.drop_last();
        let c = text.last();
        lemma_encoded_lines(rest);
        assert(rest.push(c) =~= text);
        lemma_encode_push(rest, c);
        lemma_scalar_bytes(c);
        lemma_pieces_nonempty(rest, '\n');
        let before = pieces(rest, '\n');
        let bytes = encode_utf8(rest);
        if c == '\n' {
            assert((bytes + seq![10u8]).drop_last() =~= bytes);
            assert(encode_utf8(Seq::<char>::empty()) =~= Seq::<u8>::empty());
            assert(byte_pieces(encode_utf8(text), 10) =~= pieces(text, '\n').map_values(enc));
        } else {
            lemma_byte_pieces_extend(bytes, encode_scalar(c as u32), 10);
            lemma_encode_push(before.last(), c);
            assert(byte_pieces(bytes, 10).last() == enc(before.last()));
            assert(byte_pieces(encode_utf8(text), 10) =~= pieces(text, '\n').map_values(enc));
        }
    }
}

proof fn lemma_encoded_payloads(lines: Seq<Seq<char>>)
    ensures
        lines.map_values(|line: Seq<char>| encode_utf8(line)).filter_map(
            |line: Seq<u8>| byte_line_payload(line),
        ) == lines.filter_map(|line: Seq<char>| line_payload(line)),
    decreases lines.len(),
{
    let enc = |line: Seq<char>| encode_utf8(line);
    let encoded = lines.map_values(enc);
    if lines.len() > 0 {
        lemma_encoded_payloads(lines.drop_last());
        assert(encoded.drop_last() =~= lines.drop_last().map_values(enc));
        encode_utf8_valid_utf8(lines.last());
        encode_utf8_decode_utf8(lines.last());
        assert(encoded.last() == encode_utf8(lines.last()));
    }
}

/// The bytes of a log in UTF-8 give the payloads of its text.
pub proof fn law_bytes_give_the_payloads_of_text(text: Seq<char>)
    ensures
        log_payloads(encode_utf8(text)) == wal_payloads_of(text),
{
    lemma_encoded_lines(text);
    lemma_encoded_payloads(pieces(text, '\n'));
}

// ── entries ──────────────────────────────────────────────────────────────────

/// An entry of the log: a node or an edge, still as JSON, with its embedding.
pub enum WalEntry {
    AddNode { node: serde_json::Value, vec: Vec<u32> },
    AddEdge { edge: serde_json::Value, vec: Vec<u32> },
}

/// What an entry says.
pub enum WalEntryView {
    AddNode { node: JsonTree, vec: Seq<u32> },
    AddEdge { edge: JsonTree, vec: Seq<u32> },
}

impl View for WalEntry {
    type V = WalEntryView;

    open spec fn view(&self) -> WalEntryView {
        match self {
            WalEntry::AddNode { node, vec } => WalEntryView::AddNode {
                node: json_tree(*node),
                vec: vec@,
            },
            WalEntry::AddEdge { edge, vec } => WalEntryView::AddEdge {
                edge: json_tree(*edge),
                vec: vec@,
            },
        }
    }
}

/// A number in single precision; nothing for any other value.
pub open spec fn component_of(tree: JsonTree) -> Option<u32> {
    match number_of(tree) {
        Some(bits) => Some(narrow_f64(bits) as u32),
        None => None,
    }
}

/// The numbers among the elements of a JSON array, in single precision.
pub open spec fn components_of(items: Seq<JsonTree>) -> Seq<u32> {
    items.filter_map(|t: JsonTree| component_of(t))
}

/// The entry that a JSON value stands for: `add_node` with an array `vec`, or `add_edge`, whose
/// embedding is empty without an array `vec`.
pub open spec fn entry_of(tree: JsonTree) -> Option<WalEntryView> {
    let op = text_of(member_of(tree, "op"@));
    let vec = items_of(member_of(tree, "vec"@));
    if op == Some("add_node"@) {
        match vec {
            Some(items) => Some(
                WalEntryView::AddNode {
                    node: member_of(tree, "node"@),
                    vec: components_of(items),
                },
            ),
            None => None,
        }
    } else if op == Some("add_edge"@) {
        Some(
            WalEntryView::AddEdge {
                edge: member_of(tree, "edge"@),
                vec: match vec {
                    Some(items) => components_of(items),
                    None => Seq::empty(),
                },
            },
        )
    } else {
        None
    }
}

/// Reads the numbers among `items`.
fn read_components(items: &Vec<serde_json::Value>) -> (r: Vec<u32>)
    ensures
        r@ == components_of(json_trees(items@)),
{
    let mut r: Vec<u32> = Vec::new();
    let mut i: usize = 0;
    let ghost all = json_trees(items@);
    let ghost read = |t: JsonTree| component_of(t);
    proof {
        assert(r@ =~= all.take(0).filter_map(read));
    }
    while i < items.len()
        invariant
            all == json_trees(items@),
            read == (|t: JsonTree| component_of(t)),
            i <= items@.len(),
            r@ == all.take(i as int).filter_map(read),
        decreases items@.len() - i,
    {
        proof {
            assert(all.take(i + 1).drop_last() =~= all.take(i as int));
            assert(all[i as int] == json_tree(items@[i as int]));
        }
        let ghost before = r@;
        match as_number(&items[i]) {
            Some(bits) => {
                let x: u32 = narrow(bits);
                r.push(x);
                proof {
                    assert(r@ =~= before + seq![x]);
                }
            },
            None => {},
        }
        i += 1;
    }
    proof {
        assert(all.take(i as int) =~= all);
    }
    r
}

/// Reads the entry that a JSON value stands for.
pub fn read_entry_value(entry: &serde_json::Value) -> (r: Option<WalEntry>)
    ensures
        match r {
            Some(e) => entry_of(json_tree(*entry)) == Some(e@),
            None => entry_of(json_tree(*entry)) is None,
        },
{
    let op = as_text(member(entry, "op"));
    let items = as_items(member(entry, "vec"));
    match op {
        Some(name) => {
            if same_text(name, "add_node") {
                match items {
                    Some(list) => {
                        let vec = read_components(list);
                        let node = member(entry, "node").clone();
                        Some(WalEntry::AddNode { node, vec })
                    },
                    None => None,
                }
            } else if same_text(name, "add_edge") {
                let vec: Vec<u32> = match items {
                    Some(list) => read_components(list),
                    None => Vec::new(),
                };
                let edge = member(entry, "edge").clone();
                proof {
                    reveal_strlit("add_node");
                    reveal_strlit("add_edge");
                    assert("add_node"@[4] != "add_edge"@[4]);
                }
                Some(WalEntry::AddEdge { edge, vec })
            } else {
                None
            }
        },
        None => None,
    }
}

/// Reads the entry that a payload stands for: nothing if it is not JSON or not an entry.
pub fn read_entry(payload: &str) -> (r: Option<WalEntry>)
    ensures
        match r {
            Some(e) => json_parse(payload@) matches Some(tree) && entry_of(tree) == Some(e@),
            None => json_parse(payload@) matches Some(tree) ==> entry_of(tree) is None,
        },
{
    match parse_value(payload) {
        Some(v) => read_entry_value(&v),
        None => None,
    }
}

/// The entry that a payload stands for.
pub open spec fn payload_entry(payload: Seq<char>) -> Option<WalEntryView> {
    match json_parse(payload) {
        Some(tree) => entry_of(tree),
        None => None,
    }
}

/// The entries in the bytes of a log, in order.
pub open spec fn log_entries(bytes: Seq<u8>) -> Seq<WalEntryView> {
    log_payloads(bytes).filter_map(|p: Seq<char>| payload_entry(p))
}

/// What a list of entries says.
pub open spec fn entry_views(list: Seq<WalEntry>) -> Seq<WalEntryView> {
    list.map_values(|e: WalEntry| e@)
}

/// Reads a log. Malformed, truncated and corrupt lines are skipped.
pub fn read_log(bytes: &[u8]) -> (r: Vec<WalEntry>)
    ensures
        entry_views(r@) == log_entries(bytes@),
{
    let payloads = wal_payloads(bytes);
    let mut r: Vec<WalEntry> = Vec::new();
    let mut i: usize = 0;
    let ghost all = log_payloads(bytes@);
    let ghost read = |p: Seq<char>| payload_entry(p);
    proof {
        assert(entry_views(r@) =~= all.take(0).filter_map(read));
    }
    while i < payloads.len()
        invariant
            all == texts(payloads@),
            read == (|p: Seq<char>| payload_entry(p)),
            i <= payloads@.len(),
            entry_views(r@) == all.take(i as int).filter_map(read),
        decreases payloads@.len() - i,
    {
        proof {
            assert(all.take(i + 1).drop_last() =~= all.take(i as int));
            assert(all[i as int] == payloads@[i as int]@);
        }
        let ghost before = entry_views(r@);
        match read_entry(payloads[i].as_str()) {
            Some(e) => {
                r.push(e);
                proof {
                    assert(entry_views(r@) =~= before + seq![e@]);
                }
            },
            None => {},
        }
        i += 1;
    }
    proof {
        assert(all.take(i as int) =~= all);
    }
    r
}

// ── what a line says ─────────────────────────────────────────────────────────

/// The line of an entry is its checksum in eight hexadecimal digits, a bar, the entry, and a line
/// end. The checksum is that of the entry's bytes.
pub proof fn law_line_has_checksum_and_entry(payload: Seq<char>)
    ensures
        ({
            let line = wal_line_text(payload);
            &&& line.len() == payload.len() + 10
            &&& forall|i: int| 0 <= i < 8 ==> is_hex_digit(#[trigger] line[i])
            &&& hex_value(line.take(8)) == fnv1a(encode_utf8(payload))
            &&& line[8] == '|'
            &&& line.subrange(9, line.len() - 1) == payload
            &&& line.last() == '\n'
        }),
{
    let sum = checksum(payload);
    let hex = hex_text(sum as nat, 8);
    let line = wal_line_text(payload);
    lemma_hex_round_trip(sum);
    assert(line.take(8) =~= hex);
    assert forall|i: int| 0 <= i < 8 implies is_hex_digit(#[trigger] line[i]) by {
        assert(line[i] == hex[i]);
        assert(is_hex_digit(hex[i]));
    }
    assert(line.subrange(9, line.len() - 1) =~= payload);
}

/// A line without a checksum, as older logs have them, gives its whole text without the white space
/// around it; a blank line gives nothing.
pub proof fn law_line_without_checksum_is_taken_whole(line: Seq<char>)
    requires
        ({
            let t = trimmed(line);
            let bar = first_place(t, '|');
            bar == t.len() || bar != 8 || exists|i: int|
                0 <= i < 8 && !is_hex_digit(#[trigger] t[i])
        }),
    ensures
        line_payload(line) == (if trimmed(line).len() == 0 {
            None
        } else {
            Some(trimmed(line))
        }),
{
    let t = trimmed(line);
    let bar = first_place(t, '|');
    if 0 <= bar < t.len() && is_hex8(t.take(bar)) {
        assert forall|i: int| 0 <= i < 8 implies is_hex_digit(#[trigger] t[i]) by {
            assert(t.take(bar)[i] == t[i]);
        }
    }
    lemma_first_place(t, '|');
}

/// An entry adds a node where it says so and has a list for a vector; it adds an edge where it says
/// so, with an empty vector where it has no list. Anything else is no entry. Of the list the numbers
/// count, in single precision.
pub proof fn law_entry_says_what_it_adds(tree: JsonTree)
    ensures
        ({
            let op = text_of(member_of(tree, "op"@));
            let items = items_of(member_of(tree, "vec"@));
            &&& op == Some("add_node"@) && items is Some ==> entry_of(tree) == Some(
                WalEntryView::AddNode {
                    node: member_of(tree, "node"@),
                    vec: components_of(items->0),
                },
            )
            &&& op == Some("add_node"@) && items is None ==> entry_of(tree) is None
            &&& op == Some("add_edge"@) ==> entry_of(tree) == Some(
                WalEntryView::AddEdge {
                    edge: member_of(tree, "edge"@),
                    vec: if items is Some {
                        components_of(items->0)
                    } else {
                        Seq::empty()
                    },
                },
            )
            &&& op != Some("add_node"@) && op != Some("add_edge"@) ==> entry_of(tree) is None
        }),
{
    reveal_strlit("add_node");
    reveal_strlit("add_edge");
    assert("add_node"@[4] != "add_edge"@[4]);
}

/// A list of numbers gives a vector of them in order, each in single precision.
pub proof fn law_numbers_are_components(items: Seq<JsonTree>)
    requires
        forall|i: int| 0 <= i < items.len() ==> number_of(#[trigger] items[i]) is Some,
    ensures
        components_of(items).len() == items.len(),
        forall|i: int|
            0 <= i < items.len() ==> #[trigger] components_of(items)[i] == narrow_f64(
                number_of(items[i])->0,
            ) as u32,
    decreases items.len(),
{
    if items.len() > 0 {
        let rest = items.drop_last();
        let last = items.len() - 1;
        let f = |t: JsonTree| component_of(t);
        assert forall|i: int| 0 <= i < rest.len() implies number_of(#[trigger] rest[i]) is Some by {
            assert(rest[i] == items[i]);
        }
        law_numbers_are_components(rest);
        assert(number_of(items[last]) is Some);
        assert(rest.push(items[last]) =~= items);
        assert(components_of(items) =~= components_of(rest) + seq![component_of(items[last])->0]);
        assert forall|i: int| 0 <= i < items.len() implies #[trigger] components_of(items)[i]
            == narrow_f64(number_of(items[i])->0) as u32 by {
            if i < last {
                assert(components_of(items)[i] == components_of(rest)[i]);
                assert(rest[i] == items[i]);
            }
        }
    } else {
        assert(components_of(items) =~= Seq::empty());
    }
}

/// A line that is not UTF-8 gives nothing.
pub proof fn law_bytes_that_are_no_text_give_nothing(line: Seq<u8>)
    requires
        !valid_utf8(line),
    ensures
        byte_line_payload(line) is None,
{
}

/// A line whose checksum is not that of what follows it gives nothing, and one whose checksum is
/// gives what follows it.
pub proof fn law_checksum_decides(line: Seq<char>, sum: Seq<char>, rest: Seq<char>)
    requires
        trimmed(line) == sum.push('|') + rest,
        sum.len() == 8,
        forall|i: int| 0 <= i < 8 ==> is_hex_digit(#[trigger] sum[i]),
    ensures
        line_payload(line) == (if hex_value(sum) == fnv1a(encode_utf8(rest)) {
            Some(rest)
        } else {
            None
        }),
{
    let t = trimmed(line);
    assert forall|i: int| 0 <= i < 8 implies #[trigger] t[i] != '|' by {
        assert(t[i] == sum[i]);
        assert(is_hex_digit(sum[i]));
    }
    assert(t[8] == '|');
    lemma_first_place_is(t, '|', 8);
    assert(t.take(8) =~= sum);
    assert(t.skip(9) =~= rest);
}

/// What entries read as is what they hold, in order.
pub proof fn law_entries_read_as_what_they_hold(list: Seq<WalEntry>, i: int)
    requires
        0 <= i < list.len(),
    ensures
        entry_views(list).len() == list.len(),
        match list[i] {
            WalEntry::AddNode { node, vec } => entry_views(list)[i] == (WalEntryView::AddNode {
                node: json_tree(node),
                vec: vec@,
            }),
            WalEntry::AddEdge { edge, vec } => entry_views(list)[i] == (WalEntryView::AddEdge {
                edge: json_tree(edge),
                vec: vec@,
            }),
        },
{
}

/// The checksum starts from a fixed number; each byte is joined to it bit by bit and the result
/// multiplied by a fixed number, in 32 bits.
pub proof fn law_checksum_takes_in_each_byte(data: Seq<u8>, b: u8)
    ensures
        fnv1a(Seq::empty()) == 0x811c_9dc5,
        fnv1a(data.push(b)) as int == ((fnv1a(data) ^ b as u32) * 0x0100_0193)
            % 0x1_0000_0000,
{
    assert(data.push(b).drop_last() =~= data);
}

} // verus!
