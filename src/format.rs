//! The byte layout of a shortcut list, stated as spec functions: what reading a buffer yields
//! (`decode_*`) and what writing a list of records produces (`*_bytes`).
//!
//! A list is `NUL "shortcuts" NUL`, then one block per record, then `BS`. A record block is
//! `NUL <order digits> NUL`, its field lines, a tags block and `BS`. A text line is
//! `SOH key NUL value NUL`; a numeric line is `STX key NUL` followed by four bytes: either the
//! value little-endian (long form) or `SOH` and the low three bytes of the value (short form).
//! A tags block is `NUL "tags" NUL`, entries `SOH index NUL tag NUL`, and `BS`.
use vstd::prelude::*;
use vstd::utf8::{decode_utf8, encode_utf8, valid_utf8};

use crate::shortcut::ShortcutView;

verus! {

/// The delimiter that ends every text and opens record and tags blocks.
pub const NUL: u8 = 0x00;

/// Opens a text line, a tag entry, and the short form of a numeric value.
pub const SOH: u8 = 0x01;

/// Opens a numeric line.
pub const STX: u8 = 0x02;

/// Closes a tags block, a record block and the list.
pub const BS: u8 = 0x08;

/// What the reader expected where it stopped.
#[derive(Debug, Clone, Copy, PartialEq, Eq, Structural)]
pub enum Token {
    /// `NUL "shortcuts" NUL` at the start of the buffer.
    Header,
    /// `NUL` opening a record block, or `BS` closing the list.
    RecordOrEnd,
    /// The decimal order of a record: one or more ASCII digits whose value fits a `usize`.
    Order,
    /// A `NUL` byte.
    Nul,
    /// `SOH` or `STX` opening a field line.
    Line,
    /// The four bytes of a numeric value.
    NumericValue,
    /// `NUL "tags" NUL` opening a tags block.
    TagsHeader,
    /// `SOH` opening a tag entry, or `BS` closing the tags block.
    TagOrEnd,
    /// `BS` closing a record block.
    RecordEnd,
}

impl Token {
    /// How the token is named in a message.
    pub open spec fn spec_name(self) -> Seq<char> {
        match self {
            Token::Header => "list header"@,
            Token::RecordOrEnd => "record or end of list"@,
            Token::Order => "record order"@,
            Token::Nul => "NUL"@,
            Token::Line => "field line"@,
            Token::NumericValue => "numeric value"@,
            Token::TagsHeader => "tags header"@,
            Token::TagOrEnd => "tag or end of tags"@,
            Token::RecordEnd => "end of record"@,
        }
    }

    /// How the token is named in a message.
    pub fn name(&self) -> (r: &'static str)
        ensures
            r@ == self.spec_name(),
    {
        match self {
            Token::Header => "list header",
            Token::RecordOrEnd => "record or end of list",
            Token::Order => "record order",
            Token::Nul => "NUL",
            Token::Line => "field line",
            Token::NumericValue => "numeric value",
            Token::TagsHeader => "tags header",
            Token::TagOrEnd => "tag or end of tags",
            Token::RecordEnd => "end of record",
        }
    }
}

/// Why a buffer could not be read.
#[derive(Debug, Clone, Copy, PartialEq, Eq, Structural)]
pub enum DecodeError {
    /// `token` was expected at byte `offset` (an offset equal to the length means the buffer
    /// ended first).
    Expected { offset: usize, token: Token },
    /// The text that starts at byte `offset` is not valid UTF-8.
    InvalidUtf8 { offset: usize },
}

/// The bytes of the message that describes an error: what was expected, or that the text is
/// not UTF-8, and the offset in decimal.
pub open spec fn message_bytes(e: DecodeError) -> Seq<u8> {
    match e {
        DecodeError::Expected { offset, token } => encode_utf8("expected "@) + encode_utf8(
            token.spec_name(),
        ) + encode_utf8(" at offset "@) + decimal(offset as nat),
        DecodeError::InvalidUtf8 { offset } => encode_utf8("invalid UTF-8 at offset "@) + decimal(
            offset as nat,
        ),
    }
}

/// A field line as read: a key with a text value or with a numeric value.
pub enum LineView {
    Text { name: Seq<char>, value: Seq<char> },
    Numeric { name: Seq<char>, value: u32 },
}

impl LineView {
    pub open spec fn name(self) -> Seq<char> {
        match self {
            LineView::Text { name, .. } => name,
            LineView::Numeric { name, .. } => name,
        }
    }

    /// The text of a text line; empty for a numeric line.
    pub open spec fn text_value(self) -> Seq<char> {
        match self {
            LineView::Text { value, .. } => value,
            LineView::Numeric { .. } => Seq::empty(),
        }
    }

    /// The value of a numeric line; zero for a text line.
    pub open spec fn num_value(self) -> u32 {
        match self {
            LineView::Text { .. } => 0,
            LineView::Numeric { value, .. } => value,
        }
    }
}

/// The bytes of the word `shortcuts`.
pub open spec fn shortcuts_word() -> Seq<u8> {
    seq![0x73u8, 0x68, 0x6f, 0x72, 0x74, 0x63, 0x75, 0x74, 0x73]
}

/// The bytes of the word `tags`.
pub open spec fn tags_word() -> Seq<u8> {
    seq![0x74u8, 0x61, 0x67, 0x73]
}

/// Position just past the list header `NUL "shortcuts" NUL`.
pub const HEADER_LEN: usize = 11;

/// Position of a tags block's entries relative to its start, past `NUL "tags" NUL`.
pub const TAGS_HEADER_LEN: usize = 6;

pub open spec fn expected(i: int, token: Token) -> DecodeError {
    DecodeError::Expected { offset: i as usize, token }
}

pub open spec fn byte_at(b: Seq<u8>, i: int, c: u8) -> bool {
    0 <= i < b.len() && b[i] == c
}

pub open spec fn word_at(b: Seq<u8>, i: int, w: Seq<u8>) -> bool {
    0 <= i && i + w.len() <= b.len() && b.subrange(i, i + w.len()) == w
}

/// The position of the first `NUL` at or after `i`, if there is one.
pub open spec fn nul_index(b: Seq<u8>, i: int) -> Option<int>
    decreases b.len() - i,
{
    if i < 0 || i >= b.len() {
        None
    } else if b[i] == NUL {
        Some(i)
    } else {
        nul_index(b, i + 1)
    }
}

/// Reads a text that starts at `i` and runs to the next `NUL`; the position after that `NUL`.
pub open spec fn decode_text(b: Seq<u8>, i: int) -> Result<(Seq<char>, int), DecodeError> {
    match nul_index(b, i) {
        None => Err(expected(b.len() as int, Token::Nul)),
        Some(e) => if valid_utf8(b.subrange(i, e)) {
            Ok((decode_utf8(b.subrange(i, e)), e + 1))
        } else {
            Err(DecodeError::InvalidUtf8 { offset: i as usize })
        },
    }
}

pub open spec fn is_digit(c: u8) -> bool {
    0x30 <= c <= 0x39
}

pub open spec fn all_digits(d: Seq<u8>) -> bool {
    forall|k: int| 0 <= k < d.len() ==> is_digit(#[trigger] d[k])
}

/// The number that a run of ASCII decimal digits denotes.
pub open spec fn digits_value(d: Seq<u8>) -> nat
    decreases d.len(),
{
    if d.len() == 0 {
        0
    } else {
        digits_value(d.drop_last()) * 10 + (d.last() - 0x30) as nat
    }
}

/// Reads `NUL <digits> NUL` at `i`, the opening of a record block.
pub open spec fn decode_order(b: Seq<u8>, i: int) -> Result<(usize, int), DecodeError> {
    if !byte_at(b, i, NUL) {
        Err(expected(i, Token::Nul))
    } else {
        match nul_index(b, i + 1) {
            None => Err(expected(b.len() as int, Token::Nul)),
            Some(e) => {
                let d = b.subrange(i + 1, e);
                if d.len() > 0 && all_digits(d) && digits_value(d) <= usize::MAX {
                    Ok((digits_value(d) as usize, e + 1))
                } else {
                    Err(expected(i + 1, Token::Order))
                }
            },
        }
    }
}

/// The value of four bytes read little-endian.
pub open spec fn long_value(b0: u8, b1: u8, b2: u8, b3: u8) -> u32 {
    (b0 as int + b1 as int * 0x100 + b2 as int * 0x1_0000 + b3 as int * 0x100_0000) as u32
}

/// The value of three bytes read little-endian and zero-extended.
pub open spec fn short_value(b0: u8, b1: u8, b2: u8) -> u32 {
    (b0 as int + b1 as int * 0x100 + b2 as int * 0x1_0000) as u32
}

/// Reads the value of a numeric line at `i`: the short form when the first byte is `SOH`,
/// else the long form.
pub open spec fn decode_number(b: Seq<u8>, i: int) -> Result<(u32, int), DecodeError> {
    if i < 0 || i + 4 > b.len() {
        Err(expected(i, Token::NumericValue))
    } else if b[i] == SOH {
        Ok((short_value(b[i + 1], b[i + 2], b[i + 3]), i + 4))
    } else {
        Ok((long_value(b[i], b[i + 1], b[i + 2], b[i + 3]), i + 4))
    }
}

/// Reads one field line at `i`.
pub open spec fn decode_line(b: Seq<u8>, i: int) -> Result<(LineView, int), DecodeError> {
    if byte_at(b, i, SOH) {
        match decode_text(b, i + 1) {
            Err(e) => Err(e),
            Ok((name, j)) => match decode_text(b, j) {
                Err(e) => Err(e),
                Ok((value, k)) => Ok((LineView::Text { name, value }, k)),
            },
        }
    } else if byte_at(b, i, STX) {
        match decode_text(b, i + 1) {
            Err(e) => Err(e),
            Ok((name, j)) => match decode_number(b, j) {
                Err(e) => Err(e),
                Ok((value, k)) => Ok((LineView::Numeric { name, value }, k)),
            },
        }
    } else {
        Err(expected(i, Token::Line))
    }
}

/// Reads the field lines that start at `i`, up to the first byte that opens no line.
pub open spec fn decode_lines(b: Seq<u8>, i: int) -> Result<(Seq<LineView>, int), DecodeError>
    decreases b.len() - i,
{
    if byte_at(b, i, SOH) || byte_at(b, i, STX) {
        match decode_line(b, i) {
            Err(e) => Err(e),
            Ok((l, j)) => if i < j <= b.len() {
                match decode_lines(b, j) {
                    Err(e) => Err(e),
                    Ok((ls, k)) => Ok((seq![l] + ls, k)),
                }
            } else {
                Err(expected(i, Token::Line))
            },
        }
    } else {
        Ok((Seq::empty(), i))
    }
}

/// Reads the tag entries that start at `i`, and the `BS` that closes them. The index of an
/// entry is skipped: tags come out in the order in which they stand.
pub open spec fn decode_tag_entries(b: Seq<u8>, i: int) -> Result<(Seq<Seq<char>>, int), DecodeError>
    decreases b.len() - i,
{
    if byte_at(b, i, BS) {
        Ok((Seq::empty(), i + 1))
    } else if byte_at(b, i, SOH) {
        match nul_index(b, i + 1) {
            None => Err(expected(b.len() as int, Token::Nul)),
            Some(e) => match decode_text(b, e + 1) {
                Err(e) => Err(e),
                Ok((t, j)) => if i < j <= b.len() {
                    match decode_tag_entries(b, j) {
                        Err(e) => Err(e),
                        Ok((ts, k)) => Ok((seq![t] + ts, k)),
                    }
                } else {
                    Err(expected(i, Token::TagOrEnd))
                },
            },
        }
    } else {
        Err(expected(i, Token::TagOrEnd))
    }
}

/// Reads a tags block at `i`.
pub open spec fn decode_tags(b: Seq<u8>, i: int) -> Result<(Seq<Seq<char>>, int), DecodeError> {
    if byte_at(b, i, NUL) && word_at(b, i + 1, tags_word()) && byte_at(b, i + 5, NUL) {
        decode_tag_entries(b, i + TAGS_HEADER_LEN)
    } else {
        Err(expected(i, Token::TagsHeader))
    }
}

/// The last line whose key is `key`.
pub open spec fn last_with_name(lines: Seq<LineView>, key: Seq<char>) -> Option<LineView>
    decreases lines.len(),
{
    if lines.len() == 0 {
        None
    } else if lines.last().name() == key {
        Some(lines.last())
    } else {
        last_with_name(lines.drop_last(), key)
    }
}

/// The numeric value given to `key` by the last line with that key; zero when none has it.
pub open spec fn numeric_field(lines: Seq<LineView>, key: Seq<char>) -> u32 {
    match last_with_name(lines, key) {
        Some(l) => l.num_value(),
        None => 0,
    }
}

/// The text given to `key` by the last line with that key; empty when none has it.
pub open spec fn text_field(lines: Seq<LineView>, key: Seq<char>) -> Seq<char> {
    match last_with_name(lines, key) {
        Some(l) => l.text_value(),
        None => Seq::empty(),
    }
}

/// The record that a block with this order, these field lines and these tags stands for.
/// Keys that name no field are ignored.
#[verifier::opaque]
pub open spec fn assemble(order: usize, lines: Seq<LineView>, tags: Seq<Seq<char>>) -> ShortcutView {
    ShortcutView {
        order,
        app_id: numeric_field(lines, "appid"@),
        app_name: text_field(lines, "AppName"@),
        exe: text_field(lines, "Exe"@),
        start_dir: text_field(lines, "StartDir"@),
        icon: text_field(lines, "icon"@),
        shortcut_path: text_field(lines, "ShortcutPath"@),
        launch_options: text_field(lines, "LaunchOptions"@),
        is_hidden: numeric_field(lines, "IsHidden"@) != 0,
        allow_desktop_config: numeric_field(lines, "AllowDesktopConfig"@) != 0,
        allow_overlay: numeric_field(lines, "AllowOverlay"@) != 0,
        open_vr: numeric_field(lines, "openvr"@),
        dev_kit: numeric_field(lines, "Devkit"@),
        dev_kit_game_id: text_field(lines, "DevkitGameID"@),
        dev_kit_overrite_app_id: numeric_field(lines, "DevkitOverrideAppID"@),
        last_play_time: numeric_field(lines, "LastPlayTime"@),
        tags,
    }
}

/// Reads one record block at `i`.
pub open spec fn decode_record(b: Seq<u8>, i: int) -> Result<(ShortcutView, int), DecodeError> {
    match decode_order(b, i) {
        Err(e) => Err(e),
        Ok((order, j)) => match decode_lines(b, j) {
            Err(e) => Err(e),
            Ok((lines, k)) => match decode_tags(b, k) {
                Err(e) => Err(e),
                Ok((tags, m)) => if byte_at(b, m, BS) {
                    Ok((assemble(order, lines, tags), m + 1))
                } else {
                    Err(expected(m, Token::RecordEnd))
                },
            },
        },
    }
}

/// Reads the record blocks that start at `i`, and the `BS` that closes the list.
pub open spec fn decode_records(b: Seq<u8>, i: int) -> Result<(Seq<ShortcutView>, int), DecodeError>
    decreases b.len() - i,
{
    if byte_at(b, i, NUL) {
        match decode_record(b, i) {
            Err(e) => Err(e),
            Ok((r, j)) => if i < j <= b.len() {
                match decode_records(b, j) {
                    Err(e) => Err(e),
                    Ok((rs, k)) => Ok((seq![r] + rs, k)),
                }
            } else {
                Err(expected(i, Token::RecordOrEnd))
            },
        }
    } else if byte_at(b, i, BS) {
        Ok((Seq::empty(), i + 1))
    } else {
        Err(expected(i, Token::RecordOrEnd))
    }
}

/// Reads a whole list; the position after its closing `BS`. What follows is not read.
pub open spec fn decode_stream(b: Seq<u8>) -> Result<(Seq<ShortcutView>, int), DecodeError> {
    if byte_at(b, 0, NUL) && word_at(b, 1, shortcuts_word()) && byte_at(b, 10, NUL) {
        decode_records(b, HEADER_LEN as int)
    } else {
        Err(expected(0, Token::Header))
    }
}

/// The records that a buffer holds, or why it cannot be read.
pub open spec fn shortcuts_of(b: Seq<u8>) -> Result<Seq<ShortcutView>, DecodeError> {
    match decode_stream(b) {
        Ok((rs, _)) => Ok(rs),
        Err(e) => Err(e),
    }
}

/// A field line as written, with the form chosen for its value.
pub enum WireLine {
    /// `SOH key NUL value NUL`.
    Text { key: Seq<char>, value: Seq<char> },
    /// `STX key NUL` and the four bytes of `value`, little-endian.
    Long { key: Seq<char>, value: u32 },
    /// `STX key NUL SOH` and the low three bytes of `value`, little-endian.
    Short { key: Seq<char>, value: u32 },
}

/// The four bytes of a value, least significant first.
pub open spec fn le_bytes(v: u32) -> Seq<u8> {
    seq![
        (v % 0x100) as u8,
        ((v / 0x100) % 0x100) as u8,
        ((v / 0x1_0000) % 0x100) as u8,
        (v / 0x100_0000) as u8,
    ]
}

#[verifier::opaque]
pub open spec fn wire_bytes(l: WireLine) -> Seq<u8> {
    match l {
        WireLine::Text { key, value } => seq![SOH] + encode_utf8(key) + seq![NUL] + encode_utf8(
            value,
        ) + seq![NUL],
        WireLine::Long { key, value } => seq![STX] + encode_utf8(key) + seq![NUL] + le_bytes(value),
        WireLine::Short { key, value } => seq![STX] + encode_utf8(key) + seq![NUL] + seq![SOH]
            + le_bytes(value).take(3),
    }
}

#[verifier::opaque]
pub open spec fn wire_lines_bytes(ls: Seq<WireLine>) -> Seq<u8>
    decreases ls.len(),
{
    if ls.len() == 0 {
        Seq::empty()
    } else {
        wire_lines_bytes(ls.drop_last()) + wire_bytes(ls.last())
    }
}

/// The value whose short form is the one written for a flag: `SOH NUL NUL 0x01` when set,
/// `SOH NUL NUL NUL` when not.
pub open spec fn flag_value(flag: bool) -> u32 {
    if flag {
        0x1_0000
    } else {
        0
    }
}

/// The field lines written for a record, in their fixed order.
#[verifier::opaque]
pub open spec fn record_wire_lines(r: ShortcutView) -> Seq<WireLine> {
    seq![
        WireLine::Long { key: "appid"@, value: r.app_id },
        WireLine::Text { key: "AppName"@, value: r.app_name },
        WireLine::Text { key: "Exe"@, value: r.exe },
        WireLine::Text { key: "StartDir"@, value: r.start_dir },
        WireLine::Text { key: "icon"@, value: r.icon },
        WireLine::Text { key: "ShortcutPath"@, value: r.shortcut_path },
        WireLine::Text { key: "LaunchOptions"@, value: r.launch_options },
        WireLine::Long { key: "IsHidden"@, value: if r.is_hidden { 1 } else { 0 } },
        WireLine::Short { key: "AllowDesktopConfig"@, value: flag_value(r.allow_desktop_config) },
        WireLine::Short { key: "AllowOverlay"@, value: flag_value(r.allow_overlay) },
        WireLine::Long { key: "openvr"@, value: r.open_vr },
        WireLine::Long { key: "Devkit"@, value: r.dev_kit },
        WireLine::Text { key: "DevkitGameID"@, value: r.dev_kit_game_id },
        WireLine::Long { key: "DevkitOverrideAppID"@, value: r.dev_kit_overrite_app_id },
        WireLine::Long { key: "LastPlayTime"@, value: r.last_play_time },
    ]
}

/// The ASCII decimal digits of `n`, most significant first, without leading zeros.
pub open spec fn decimal(n: nat) -> Seq<u8>
    decreases n,
{
    if n < 10 {
        seq![(0x30 + n) as u8]
    } else {
        decimal(n / 10).push((0x30 + n % 10) as u8)
    }
}

/// A tag entry: `SOH index NUL tag NUL`.
pub open spec fn tag_entry_bytes(index: Seq<u8>, tag: Seq<char>) -> Seq<u8> {
    seq![SOH] + index + seq![NUL] + encode_utf8(tag) + seq![NUL]
}

/// The entries for `tags`, the one at position `k` carrying `indices[k]` as its index.
pub open spec fn tag_entries_bytes(indices: Seq<Seq<u8>>, tags: Seq<Seq<char>>) -> Seq<u8>
    decreases tags.len(),
{
    if tags.len() == 0 {
        Seq::empty()
    } else {
        tag_entries_bytes(indices, tags.drop_last()) + tag_entry_bytes(
            indices[tags.len() - 1],
            tags.last(),
        )
    }
}

/// The indices that the writer gives to `n` tags: their positions in decimal.
pub open spec fn positions(n: nat) -> Seq<Seq<u8>> {
    Seq::new(n, |k: int| decimal(k as nat))
}

pub open spec fn tags_block_bytes(tags: Seq<Seq<char>>) -> Seq<u8> {
    seq![NUL] + tags_word() + seq![NUL] + tag_entries_bytes(positions(tags.len()), tags) + seq![BS]
}

/// The block written for one record.
#[verifier::opaque]
pub open spec fn record_bytes(r: ShortcutView) -> Seq<u8> {
    seq![NUL] + decimal(r.order as nat) + seq![NUL] + wire_lines_bytes(record_wire_lines(r))
        + tags_block_bytes(r.tags) + seq![BS]
}

pub open spec fn records_bytes(rs: Seq<ShortcutView>) -> Seq<u8>
    decreases rs.len(),
{
    if rs.len() == 0 {
        Seq::empty()
    } else {
        records_bytes(rs.drop_last()) + record_bytes(rs.last())
    }
}

/// The bytes written for a list of records: the header, each record's block, and two `BS`.
pub open spec fn encode_shortcuts(rs: Seq<ShortcutView>) -> Seq<u8> {
    seq![NUL] + shortcuts_word() + seq![NUL] + records_bytes(rs) + seq![BS, BS]
}

} // verus!
