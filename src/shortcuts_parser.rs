//! Reading a buffer into shortcut records.
use vstd::prelude::*;
use vstd::slice::slice_subrange;
use vstd::utf8::{decode_utf8, encode_utf8, valid_utf8};

use crate::format::{
    all_digits, assemble, byte_at, decode_line, decode_lines, decode_number, decode_order, decode_record,
    decode_records, decode_stream, decode_tag_entries, decode_tags, decode_text, digits_value,
    decimal, is_digit, last_with_name, message_bytes, nul_index, numeric_field, shortcuts_of, shortcuts_word, tags_word,
    text_field, word_at, DecodeError, LineView, Token, BS, HEADER_LEN, NUL, SOH, STX,
    TAGS_HEADER_LEN,
};
use crate::shortcut::{shortcut_views, text_views, Shortcut, ShortcutView};
use crate::bytes::{append_bytes, lemma_ascii_valid_utf8, lemma_decimal_ascii, push_decimal};
use crate::text::{same_text, text_of};

verus! {

/// A field line as read from the buffer, borrowing its text from it.
pub enum LineType<'a> {
    Text { name: &'a str, value: &'a str },
    Numeric { name: &'a str, value: u32 },
}

impl<'a> View for LineType<'a> {
    type V = LineView;

    open spec fn view(&self) -> LineView {
        match *self {
            LineType::Text { name, value } => LineView::Text { name: name@, value: value@ },
            LineType::Numeric { name, value } => LineView::Numeric { name: name@, value },
        }
    }
}

impl<'a> LineType<'a> {
    /// The key of the line.
    pub fn name(&self) -> (r: &'a str)
        ensures
            r@ == self@.name(),
    {
        match *self {
            LineType::Text { name, value: _ } => name,
            LineType::Numeric { name, value: _ } => name,
        }
    }

    /// The text of a text line; empty for a numeric line.
    pub fn text_value(&self) -> (r: &'a str)
        ensures
            r@ == self@.text_value(),
    {
        match *self {
            LineType::Text { name: _, value } => value,
            LineType::Numeric { name: _, value: _ } => {
                proof {
                    reveal_strlit("");
                }
                ""
            },
        }
    }

    /// The value of a numeric line; zero for a text line.
    pub fn num_value(&self) -> (r: u32)
        ensures
            r == self@.num_value(),
    {
        match *self {
            LineType::Text { name: _, value: _ } => 0,
            LineType::Numeric { name: _, value } => value,
        }
    }
}

/// The position of the first `NUL` at or after `i`.
fn find_nul(b: &[u8], i: usize) -> (r: Option<usize>)
    requires
        i <= b@.len(),
    ensures
        r is None <==> nul_index(b@, i as int) is None,
        r matches Some(e) ==> nul_index(b@, i as int) == Some(e as int) && i <= e < b@.len(),
{
    let mut k = i;
    while k < b.len()
        invariant
            i <= k <= b@.len(),
            nul_index(b@, i as int) == nul_index(b@, k as int),
        decreases b@.len() - k,
    {
        if b[k] == NUL {
            return Some(k);
        }
        k = k + 1;
    }
    None
}

/// Reads a text that runs from `i` to the next `NUL`.
fn take_text<'a>(b: &'a [u8], i: usize) -> (r: Result<(&'a str, usize), DecodeError>)
    requires
        i <= b@.len(),
    ensures
        match decode_text(b@, i as int) {
            Ok((t, j)) => r matches Ok((s, k)) && s@ == t && k == j,
            Err(e) => r == Err::<(&'a str, usize), DecodeError>(e),
        },
        r matches Ok((_, k)) ==> i < k <= b@.len(),
{
    let n = b.len();
    match find_nul(b, i) {
        None => Err(DecodeError::Expected { offset: n, token: Token::Nul }),
        Some(e) => {
            let bytes = slice_subrange(b, i, e);
            match text_of(bytes) {
                Some(s) => Ok((s, e + 1)),
                None => Err(DecodeError::InvalidUtf8 { offset: i }),
            }
        },
    }
}


/// A run of ASCII digits denotes at least as much as any of its prefixes.
proof fn lemma_digits_value_prefix(d: Seq<u8>, k: int)
    requires
        all_digits(d),
        0 <= k <= d.len(),
    ensures
        digits_value(d.take(k)) <= digits_value(d),
    decreases d.len(),
{
    if k < d.len() {
        let p = d.drop_last();
        assert(all_digits(p)) by {
            assert forall|j: int| 0 <= j < p.len() implies is_digit(#[trigger] p[j]) by {
                assert(p[j] == d[j]);
            }
        }
        lemma_digits_value_prefix(p, k);
        assert(p.take(k) == d.take(k));
        assert(digits_value(p) * 10 >= digits_value(p)) by (nonlinear_arith);
    } else {
        assert(d.take(k) == d);
    }
}

/// Reads `NUL <digits> NUL` at `i`.
fn read_order(b: &[u8], i: usize) -> (r: Result<(usize, usize), DecodeError>)
    requires
        i <= b@.len(),
    ensures
        match decode_order(b@, i as int) {
            Ok((v, j)) => r matches Ok((x, k)) && x == v && k == j,
            Err(e) => r matches Err(e2) && e2 == e,
        },
        r matches Ok((_, k)) ==> i < k <= b@.len(),
{
    let n = b.len();
    if i >= n || b[i] != NUL {
        return Err(DecodeError::Expected { offset: i, token: Token::Nul });
    }
    let e = match find_nul(b, i + 1) {
        None => {
            return Err(DecodeError::Expected { offset: n, token: Token::Nul });
        },
        Some(e) => e,
    };
    let ghost d = b@.subrange(i + 1, e as int);
    if e == i + 1 {
        return Err(DecodeError::Expected { offset: i + 1, token: Token::Order });
    }
    let mut v: usize = 0;
    let mut k: usize = i + 1;
    while k < e
        invariant
            i + 1 <= k <= e < b@.len(),
            d == b@.subrange(i + 1, e as int),
            b@[i as int] == NUL,
            nul_index(b@, i + 1) == Some(e as int),
            all_digits(b@.subrange(i + 1, k as int)),
            v == digits_value(b@.subrange(i + 1, k as int)),
        decreases e - k,
    {
        let c = b[k];
        if c < 0x30 || c > 0x39 {
            assert(d[k - (i + 1)] == c);
            return Err(DecodeError::Expected { offset: i + 1, token: Token::Order });
        }
        let ghost next = b@.subrange(i + 1, k + 1);
        assert(next.drop_last() == b@.subrange(i + 1, k as int));
        assert(all_digits(next)) by {
            assert forall|j: int| 0 <= j < next.len() implies is_digit(#[trigger] next[j]) by {
                if j < next.len() - 1 {
                    assert(next[j] == b@.subrange(i + 1, k as int)[j]);
                }
            }
        }
        proof {
            if all_digits(d) {
                lemma_digits_value_prefix(d, k + 1 - (i + 1));
                assert(d.take(k + 1 - (i + 1)) == next);
            }
        }
        let digit = (c - 0x30) as usize;
        let scaled = match v.checked_mul(10) {
            None => {
                return Err(DecodeError::Expected { offset: i + 1, token: Token::Order });
            },
            Some(x) => x,
        };
        v = match scaled.checked_add(digit) {
            None => {
                return Err(DecodeError::Expected { offset: i + 1, token: Token::Order });
            },
            Some(x) => x,
        };
        k = k + 1;
    }
    assert(b@.subrange(i + 1, k as int) == d);
    Ok((v, e + 1))
}

/// Reads the four bytes of a numeric value at `i`.
fn read_number(b: &[u8], i: usize) -> (r: Result<(u32, usize), DecodeError>)
    requires
        i <= b@.len(),
    ensures
        match decode_number(b@, i as int) {
            Ok((v, j)) => r matches Ok((x, k)) && x == v && k == j,
            Err(e) => r matches Err(e2) && e2 == e,
        },
        r matches Ok((_, k)) ==> i < k <= b@.len(),
{
    let n = b.len();
    if n < 4 || i > n - 4 {
        return Err(DecodeError::Expected { offset: i, token: Token::NumericValue });
    }
    if b[i] == SOH {
        let v = (b[i + 1] as u32) + (b[i + 2] as u32) * 0x100 + (b[i + 3] as u32) * 0x1_0000;
        Ok((v, i + 4))
    } else {
        let v = (b[i] as u32) + (b[i + 1] as u32) * 0x100 + (b[i + 2] as u32) * 0x1_0000 + (b[i
            + 3] as u32) * 0x100_0000;
        Ok((v, i + 4))
    }
}

/// Reads one field line at `i`.
fn read_line<'a>(b: &'a [u8], i: usize) -> (r: Result<(LineType<'a>, usize), DecodeError>)
    requires
        i <= b@.len(),
    ensures
        match decode_line(b@, i as int) {
            Ok((l, j)) => r matches Ok((x, k)) && x@ == l && k == j,
            Err(e) => r matches Err(e2) && e2 == e,
        },
        r matches Ok((_, k)) ==> i < k <= b@.len(),
{
    let n = b.len();
    if i < n && b[i] == SOH {
        let (name, j) = match take_text(b, i + 1) {
            Ok(p) => p,
            Err(e) => {
                return Err(e);
            },
        };
        let (value, k) = match take_text(b, j) {
            Ok(p) => p,
            Err(e) => {
                return Err(e);
            },
        };
        Ok((LineType::Text { name, value }, k))
    } else if i < n && b[i] == STX {
        let (name, j) = match take_text(b, i + 1) {
            Ok(p) => p,
            Err(e) => {
                return Err(e);
            },
        };
        let (value, k) = match read_number(b, j) {
            Ok(p) => p,
            Err(e) => {
                return Err(e);
            },
        };
        Ok((LineType::Numeric { name, value }, k))
    } else {
        Err(DecodeError::Expected { offset: i, token: Token::Line })
    }
}

/// The models of a sequence of lines.
pub open spec fn line_views<'a>(v: Seq<LineType<'a>>) -> Seq<LineView> {
    v.map_values(|l: LineType<'a>| l@)
}

/// Reads the field lines that start at `i`.
fn read_lines<'a>(b: &'a [u8], i: usize) -> (r: Result<(Vec<LineType<'a>>, usize), DecodeError>)
    requires
        i <= b@.len(),
    ensures
        match decode_lines(b@, i as int) {
            Ok((ls, j)) => r matches Ok((x, k)) && line_views(x@) == ls && k == j,
            Err(e) => r matches Err(e2) && e2 == e,
        },
        r matches Ok((_, k)) ==> i <= k <= b@.len(),
{
    let n = b.len();
    let mut lines: Vec<LineType<'a>> = Vec::new();
    let mut k = i;
    loop
        invariant
            i <= k <= n,
            n == b@.len(),
            decode_lines(b@, i as int) == match decode_lines(b@, k as int) {
                Ok((ls, m)) => Ok((line_views(lines@) + ls, m)),
                Err(e) => Err(e),
            },
        decreases n - k,
    {
        if k < n && (b[k] == SOH || b[k] == STX) {
            match read_line(b, k) {
                Err(e) => {
                    return Err(e);
                },
                Ok((l, j)) => {
                    let ghost before = line_views(lines@);
                    lines.push(l);
                    proof {
                        assert(line_views(lines@) == before.push(l@));
                        match decode_lines(b@, j as int) {
                            Ok((ls, m)) => {
                                assert(before + (seq![l@] + ls) == before.push(l@) + ls);
                            },
                            Err(e) => {},
                        }
                    }
                    k = j;
                },
            }
        } else {
            assert(line_views(lines@) + Seq::<LineView>::empty() == line_views(lines@));
            return Ok((lines, k));
        }
    }
}


/// Reads the tag entries that start at `i` and the `BS` that closes them.
fn read_tag_entries<'a>(b: &'a [u8], i: usize) -> (r: Result<(Vec<&'a str>, usize), DecodeError>)
    requires
        i <= b@.len(),
    ensures
        match decode_tag_entries(b@, i as int) {
            Ok((ts, j)) => r matches Ok((x, k)) && text_views(x@) == ts && k == j,
            Err(e) => r matches Err(e2) && e2 == e,
        },
        r matches Ok((_, k)) ==> i < k <= b@.len(),
{
    let n = b.len();
    let mut tags: Vec<&'a str> = Vec::new();
    let mut k = i;
    loop
        invariant
            i <= k <= n,
            n == b@.len(),
            decode_tag_entries(b@, i as int) == match decode_tag_entries(b@, k as int) {
                Ok((ts, m)) => Ok((text_views(tags@) + ts, m)),
                Err(e) => Err(e),
            },
        decreases n - k,
    {
        if k < n && b[k] == BS {
            assert(text_views(tags@) + Seq::<Seq<char>>::empty() == text_views(tags@));
            return Ok((tags, k + 1));
        } else if k < n && b[k] == SOH {
            let e = match find_nul(b, k + 1) {
                None => {
                    return Err(DecodeError::Expected { offset: n, token: Token::Nul });
                },
                Some(e) => e,
            };
            match take_text(b, e + 1) {
                Err(err) => {
                    return Err(err);
                },
                Ok((t, j)) => {
                    let ghost before = text_views(tags@);
                    tags.push(t);
                    proof {
                        assert(text_views(tags@) == before.push(t@));
                        match decode_tag_entries(b@, j as int) {
                            Ok((ts, m)) => {
                                assert(before + (seq![t@] + ts) == before.push(t@) + ts);
                            },
                            Err(_) => {},
                        }
                    }
                    k = j;
                },
            }
        } else {
            return Err(DecodeError::Expected { offset: k, token: Token::TagOrEnd });
        }
    }
}

/// Whether `NUL "tags" NUL` stands at `i`.
fn tags_header_at(b: &[u8], i: usize) -> (r: bool)
    requires
        i <= b@.len(),
    ensures
        r == (byte_at(b@, i as int, NUL) && word_at(b@, i + 1, tags_word()) && byte_at(
            b@,
            i + 5,
            NUL,
        )),
        r ==> i + TAGS_HEADER_LEN <= b@.len(),
{
    let n = b.len();
    if n < TAGS_HEADER_LEN || i > n - TAGS_HEADER_LEN {
        return false;
    }
    let r = b[i] == NUL && b[i + 1] == 0x74 && b[i + 2] == 0x61 && b[i + 3] == 0x67 && b[i + 4]
        == 0x73 && b[i + 5] == NUL;
    let ghost w = b@.subrange(i + 1, i + 5);
    assert(w[0] == b@[i + 1] && w[1] == b@[i + 2] && w[2] == b@[i + 3] && w[3] == b@[i + 4]);
    if r {
        assert(w =~= tags_word());
    }
    r
}

/// Reads a tags block at `i`.
fn read_tags<'a>(b: &'a [u8], i: usize) -> (r: Result<(Vec<&'a str>, usize), DecodeError>)
    requires
        i <= b@.len(),
    ensures
        match decode_tags(b@, i as int) {
            Ok((ts, j)) => r matches Ok((x, k)) && text_views(x@) == ts && k == j,
            Err(e) => r matches Err(e2) && e2 == e,
        },
        r matches Ok((_, k)) ==> i < k <= b@.len(),
{
    let _n = b.len();
    if tags_header_at(b, i) {
        read_tag_entries(b, i + TAGS_HEADER_LEN)
    } else {
        Err(DecodeError::Expected { offset: i, token: Token::TagsHeader })
    }
}

/// The position of the last line whose key is `key`.
fn last_index_named<'a>(lines: &Vec<LineType<'a>>, key: &str) -> (r: Option<usize>)
    ensures
        match last_with_name(line_views(lines@), key@) {
            Some(l) => r matches Some(k) && k < lines@.len() && lines@[k as int]@ == l,
            None => r is None,
        },
{
    let mut k = lines.len();
    assert(line_views(lines@).take(k as int) == line_views(lines@));
    while k > 0
        invariant
            k <= lines@.len(),
            last_with_name(line_views(lines@), key@) == last_with_name(
                line_views(lines@).take(k as int),
                key@,
            ),
        decreases k,
    {
        let ghost prefix = line_views(lines@).take(k as int);
        assert(prefix.last() == lines@[k - 1]@);
        assert(prefix.drop_last() == line_views(lines@).take(k - 1));
        if same_text(lines[k - 1].name(), key) {
            return Some(k - 1);
        }
        k = k - 1;
    }
    None
}

/// The numeric value that the last line with key `key` gives; zero when none has it.
fn numeric_value<'a>(lines: &Vec<LineType<'a>>, key: &str) -> (r: u32)
    ensures
        r == numeric_field(line_views(lines@), key@),
{
    match last_index_named(lines, key) {
        Some(k) => lines[k].num_value(),
        None => 0,
    }
}

/// The text that the last line with key `key` gives; empty when none has it.
fn text_value<'a>(lines: &Vec<LineType<'a>>, key: &str) -> (r: &'a str)
    ensures
        r@ == text_field(line_views(lines@), key@),
{
    match last_index_named(lines, key) {
        Some(k) => lines[k].text_value(),
        None => {
            proof {
                reveal_strlit("");
            }
            ""
        },
    }
}

/// Reads one record block at `i`.
fn read_record<'a>(b: &'a [u8], i: usize) -> (r: Result<(Shortcut<'a>, usize), DecodeError>)
    requires
        i <= b@.len(),
    ensures
        match decode_record(b@, i as int) {
            Ok((s, j)) => r matches Ok((x, k)) && x@ == s && k == j,
            Err(e) => r matches Err(e2) && e2 == e,
        },
        r matches Ok((_, k)) ==> i < k <= b@.len(),
{
    let (order, j) = match read_order(b, i) {
        Ok(p) => p,
        Err(e) => {
            return Err(e);
        },
    };
    let (lines, k) = match read_lines(b, j) {
        Ok(p) => p,
        Err(e) => {
            return Err(e);
        },
    };
    let (tags, m) = match read_tags(b, k) {
        Ok(p) => p,
        Err(e) => {
            return Err(e);
        },
    };
    if m < b.len() && b[m] == BS {
        proof {
            reveal(assemble);
        }
        let s = Shortcut {
            order,
            app_id: numeric_value(&lines, "appid"),
            app_name: text_value(&lines, "AppName"),
            exe: text_value(&lines, "Exe"),
            start_dir: text_value(&lines, "StartDir"),
            icon: text_value(&lines, "icon"),
            shortcut_path: text_value(&lines, "ShortcutPath"),
            launch_options: text_value(&lines, "LaunchOptions"),
            is_hidden: numeric_value(&lines, "IsHidden") != 0,
            allow_desktop_config: numeric_value(&lines, "AllowDesktopConfig") != 0,
            allow_overlay: numeric_value(&lines, "AllowOverlay") != 0,
            open_vr: numeric_value(&lines, "openvr"),
            dev_kit: numeric_value(&lines, "Devkit"),
            dev_kit_game_id: text_value(&lines, "DevkitGameID"),
            dev_kit_overrite_app_id: numeric_value(&lines, "DevkitOverrideAppID"),
            last_play_time: numeric_value(&lines, "LastPlayTime"),
            tags,
        };
        Ok((s, m + 1))
    } else {
        Err(DecodeError::Expected { offset: m, token: Token::RecordEnd })
    }
}

/// Reads the record blocks that start at `i` and the `BS` that closes the list.
fn read_records<'a>(b: &'a [u8], i: usize) -> (r: Result<(Vec<Shortcut<'a>>, usize), DecodeError>)
    requires
        i <= b@.len(),
    ensures
        match decode_records(b@, i as int) {
            Ok((rs, j)) => r matches Ok((x, k)) && shortcut_views(x@) == rs && k == j,
            Err(e) => r matches Err(e2) && e2 == e,
        },
{
    let n = b.len();
    let mut records: Vec<Shortcut<'a>> = Vec::new();
    let mut k = i;
    loop
        invariant
            i <= k <= n,
            n == b@.len(),
            decode_records(b@, i as int) == match decode_records(b@, k as int) {
                Ok((rs, m)) => Ok((shortcut_views(records@) + rs, m)),
                Err(e) => Err(e),
            },
        decreases n - k,
    {
        if k < n && b[k] == NUL {
            match read_record(b, k) {
                Err(e) => {
                    return Err(e);
                },
                Ok((s, j)) => {
                    let ghost before = shortcut_views(records@);
                    let ghost sv = s@;
                    records.push(s);
                    proof {
                        assert(shortcut_views(records@) == before.push(sv));
                        match decode_records(b@, j as int) {
                            Ok((rs, m)) => {
                                assert(before + (seq![sv] + rs) == before.push(sv) + rs);
                            },
                            Err(_) => {},
                        }
                    }
                    k = j;
                },
            }
        } else if k < n && b[k] == BS {
            assert(shortcut_views(records@) + Seq::<ShortcutView>::empty() == shortcut_views(
                records@,
            ));
            return Ok((records, k + 1));
        } else {
            return Err(DecodeError::Expected { offset: k, token: Token::RecordOrEnd });
        }
    }
}

/// Whether the buffer starts with the list header `NUL "shortcuts" NUL`.
fn list_header_at(b: &[u8]) -> (r: bool)
    ensures
        r == (byte_at(b@, 0, NUL) && word_at(b@, 1, shortcuts_word()) && byte_at(b@, 10, NUL)),
{
    if b.len() < HEADER_LEN {
        return false;
    }
    let r = b[0] == NUL && b[1] == 0x73 && b[2] == 0x68 && b[3] == 0x6f && b[4] == 0x72 && b[5]
        == 0x74 && b[6] == 0x63 && b[7] == 0x75 && b[8] == 0x74 && b[9] == 0x73 && b[10] == NUL;
    let ghost w = b@.subrange(1, 10);
    assert(w[0] == b@[1] && w[1] == b@[2] && w[2] == b@[3] && w[3] == b@[4] && w[4] == b@[5]
        && w[5] == b@[6] && w[6] == b@[7] && w[7] == b@[8] && w[8] == b@[9]);
    if r {
        assert(w =~= shortcuts_word());
    }
    r
}

/// Reads a whole list, and the position after its closing `BS`.
fn read_stream<'a>(b: &'a [u8]) -> (r: Result<(Vec<Shortcut<'a>>, usize), DecodeError>)
    ensures
        match decode_stream(b@) {
            Ok((rs, j)) => r matches Ok((x, k)) && shortcut_views(x@) == rs && k == j,
            Err(e) => r matches Err(e2) && e2 == e,
        },
{
    if list_header_at(b) {
        read_records(b, HEADER_LEN)
    } else {
        Err(DecodeError::Expected { offset: 0, token: Token::Header })
    }
}

/// Reads the shortcut records that a buffer holds. Text fields borrow from the buffer.
pub fn decode_shortcuts<'a>(shortcuts_bytes: &'a [u8]) -> (r: Result<Vec<Shortcut<'a>>, DecodeError>)
    ensures
        match shortcuts_of(shortcuts_bytes@) {
            Ok(rs) => r matches Ok(x) && shortcut_views(x@) == rs,
            Err(e) => r matches Err(e2) && e2 == e,
        },
{
    match read_stream(shortcuts_bytes) {
        Ok((records, _)) => Ok(records),
        Err(e) => Err(e),
    }
}

impl DecodeError {
    /// A message that says what went wrong and at which offset.
    pub fn message(&self) -> (r: String)
        ensures
            r@ == decode_utf8(message_bytes(*self)),
    {
        let mut bytes: Vec<u8> = Vec::new();
        match *self {
            DecodeError::Expected { offset, token } => {
                append_bytes(&mut bytes, "expected ".as_bytes());
                append_bytes(&mut bytes, token.name().as_bytes());
                append_bytes(&mut bytes, " at offset ".as_bytes());
                push_decimal(&mut bytes, offset);
            },
            DecodeError::InvalidUtf8 { offset } => {
                append_bytes(&mut bytes, "invalid UTF-8 at offset ".as_bytes());
                push_decimal(&mut bytes, offset);
            },
        }
        proof {
            broadcast use vstd::utf8::encode_utf8_valid_utf8, vstd::utf8::valid_utf8_concat;

            let n = match *self {
                DecodeError::Expected { offset, .. } => offset,
                DecodeError::InvalidUtf8 { offset } => offset,
            };
            lemma_decimal_ascii(n as nat);
            lemma_ascii_valid_utf8(decimal(n as nat));
            assert(bytes@ == message_bytes(*self));
            match *self {
                DecodeError::Expected { offset, token } => {
                    let a = encode_utf8("expected "@);
                    let b = encode_utf8(token.spec_name());
                    let c = encode_utf8(" at offset "@);
                    assert(valid_utf8(a + b));
                    assert(valid_utf8(a + b + c));
                    assert(valid_utf8(a + b + c + decimal(offset as nat)));
                },
                DecodeError::InvalidUtf8 { offset } => {
                    let a = encode_utf8("invalid UTF-8 at offset "@);
                    assert(valid_utf8(a + decimal(offset as nat)));
                },
            }
            assert(valid_utf8(bytes@));
        }
        match text_of(bytes.as_slice()) {
            Some(s) => s.to_owned(),
            None => String::new(),
        }
    }
}

/// Reads the shortcut records that a buffer holds; on failure, a message that says what was
/// expected where, or which text is not UTF-8.
pub fn parse_shortcuts<'a>(shortcuts_bytes: &'a [u8]) -> (r: Result<Vec<Shortcut<'a>>, String>)
    ensures
        match shortcuts_of(shortcuts_bytes@) {
            Ok(rs) => r matches Ok(x) && shortcut_views(x@) == rs,
            Err(e) => r matches Err(m) && m@ == decode_utf8(message_bytes(e)),
        },
{
    match decode_shortcuts(shortcuts_bytes) {
        Ok(records) => Ok(records),
        Err(e) => Err(e.message()),
    }
}

/// Reads `NUL <digits> NUL` at the start of `i`: the rest of the input and the order.
pub fn get_order(i: &[u8]) -> (r: Result<(&[u8], usize), DecodeError>)
    ensures
        match decode_order(i@, 0) {
            Ok((v, j)) => r matches Ok((rest, x)) && x == v && rest@ == i@.subrange(j, i@.len() as int),
            Err(e) => r matches Err(e2) && e2 == e,
        },
{
    match read_order(i, 0) {
        Ok((v, j)) => Ok((slice_subrange(i, j, i.len()), v)),
        Err(e) => Err(e),
    }
}

/// Reads one field line at the start of `i`: the rest of the input and the line.
pub fn parse_a_line<'a>(i: &'a [u8]) -> (r: Result<(&'a [u8], LineType<'a>), DecodeError>)
    ensures
        match decode_line(i@, 0) {
            Ok((l, j)) => r matches Ok((rest, x)) && x@ == l && rest@ == i@.subrange(j, i@.len() as int),
            Err(e) => r matches Err(e2) && e2 == e,
        },
{
    match read_line(i, 0) {
        Ok((l, j)) => Ok((slice_subrange(i, j, i.len()), l)),
        Err(e) => Err(e),
    }
}

/// Reads a tags block at the start of `i`: the rest of the input and the tags, in order.
pub fn get_tags<'a>(i: &'a [u8]) -> (r: Result<(&'a [u8], Vec<&'a str>), DecodeError>)
    ensures
        match decode_tags(i@, 0) {
            Ok((ts, j)) => r matches Ok((rest, x)) && text_views(x@) == ts && rest@ == i@.subrange(j, i@.len() as int),
            Err(e) => r matches Err(e2) && e2 == e,
        },
{
    match read_tags(i, 0) {
        Ok((ts, j)) => Ok((slice_subrange(i, j, i.len()), ts)),
        Err(e) => Err(e),
    }
}

} // verus!
