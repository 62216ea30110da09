//! What holds between the reader and the writer, proved over the spec functions that their
//! contracts use.
use vstd::prelude::*;
use vstd::utf8::{
    char_u32_cast, encode_scalar, encode_utf8, encode_utf8_decode_utf8, encode_utf8_valid_utf8,
};

use crate::bytes::lemma_decimal_ascii;
use crate::format::{
    all_digits, assemble, byte_at, decimal, decode_line, decode_lines, decode_number,
    decode_order, decode_record, decode_records, decode_stream, decode_tag_entries, decode_tags,
    decode_text, digits_value, encode_shortcuts, flag_value, last_with_name, le_bytes, long_value,
    nul_index, positions, record_bytes, record_wire_lines, records_bytes, short_value,
    shortcuts_of, shortcuts_word, tag_entries_bytes, tag_entry_bytes, tags_block_bytes, tags_word,
    wire_bytes, wire_lines_bytes, word_at, DecodeError, LineView, WireLine, BS, NUL, SOH, STX,
};
use crate::shortcut::ShortcutView;

verus! {

/// A text holds no `NUL` character.
pub open spec fn no_nul(t: Seq<char>) -> bool {
    forall|k: int| 0 <= k < t.len() ==> t[k] != '\0'
}

/// `w` stands in `b` at `i`, and so do its two parts.
proof fn lemma_word_split(b: Seq<u8>, i: int, w1: Seq<u8>, w2: Seq<u8>)
    requires
        word_at(b, i, w1 + w2),
    ensures
        word_at(b, i, w1),
        word_at(b, i + w1.len(), w2),
{
    let s = b.subrange(i, i + w1.len() + w2.len());
    assert(s == w1 + w2);
    assert forall|k: int| 0 <= k < w1.len() implies #[trigger] b.subrange(i, i + w1.len())[k]
        == w1[k] by {
        assert(s[k] == (w1 + w2)[k]);
    }
    assert forall|k: int| 0 <= k < w2.len() implies #[trigger] b.subrange(
        i + w1.len(),
        i + w1.len() + w2.len(),
    )[k] == w2[k] by {
        assert(s[k + w1.len()] == (w1 + w2)[k + w1.len()]);
    }
    assert(b.subrange(i, i + w1.len()) =~= w1);
    assert(b.subrange(i + w1.len(), i + w1.len() + w2.len()) =~= w2);
}

proof fn lemma_word_byte(b: Seq<u8>, i: int, c: u8)
    requires
        word_at(b, i, seq![c]),
    ensures
        byte_at(b, i, c),
{
    assert(b.subrange(i, i + 1)[0] == b[i]);
}

proof fn lemma_nul_index_at(b: Seq<u8>, i: int, e: int)
    requires
        0 <= i <= e < b.len(),
        b[e] == NUL,
        forall|k: int| i <= k < e ==> b[k] != NUL,
    ensures
        nul_index(b, i) == Some(e),
    decreases e - i,
{
    if i < e {
        lemma_nul_index_at(b, i + 1, e);
    }
}

/// Only the character `NUL` is encoded with a zero byte.
proof fn lemma_encode_utf8_no_zero(t: Seq<char>)
    requires
        no_nul(t),
    ensures
        forall|k: int| 0 <= k < encode_utf8(t).len() ==> encode_utf8(t)[k] != 0,
    decreases t.len(),
{
    if t.len() > 0 {
        let c = t[0];
        let v = c as u32;
        char_u32_cast(c, v);
        assert(v != 0) by {
            if v == 0 {
                assert(c == (0u32 as char));
                assert('\0' as u32 == 0u32);
                char_u32_cast('\0', 0u32);
            }
        }
        let s = encode_scalar(v);
        assert(forall|k: int| 0 <= k < s.len() ==> s[k] != 0) by {
            assert((v & 0x7F) as u8 != 0u8 || v >= 0x80u32) by (bit_vector)
                requires
                    v != 0u32,
            ;
            let x1 = ((v >> 6) & 0x1F) as u8;
            let x2 = ((v >> 12) & 0x0F) as u8;
            let x3 = ((v >> 18) & 0x7) as u8;
            let y1 = (v & 0x3F) as u8;
            let y2 = ((v >> 6) & 0x3F) as u8;
            let y3 = ((v >> 12) & 0x3F) as u8;
            assert(0xC0u8 | x1 != 0u8) by (bit_vector);
            assert(0xE0u8 | x2 != 0u8) by (bit_vector);
            assert(0xF0u8 | x3 != 0u8) by (bit_vector);
            assert(0x80u8 | y1 != 0u8) by (bit_vector);
            assert(0x80u8 | y2 != 0u8) by (bit_vector);
            assert(0x80u8 | y3 != 0u8) by (bit_vector);
        }
        let rest = t.drop_first();
        assert(no_nul(rest)) by {
            assert forall|k: int| 0 <= k < rest.len() implies rest[k] != '\0' by {
                assert(rest[k] == t[k + 1]);
            }
        }
        lemma_encode_utf8_no_zero(rest);
        let all = encode_utf8(t);
        assert(all == s + encode_utf8(rest));
        assert forall|k: int| 0 <= k < all.len() implies all[k] != 0 by {
            if k < s.len() {
                assert(all[k] == s[k]);
            } else {
                assert(all[k] == encode_utf8(rest)[k - s.len()]);
            }
        }
    }
}

/// A text without `NUL`, encoded and followed by `NUL`, reads back as itself.
proof fn lemma_decode_text_at(b: Seq<u8>, i: int, t: Seq<char>)
    requires
        no_nul(t),
        word_at(b, i, encode_utf8(t)),
        byte_at(b, i + encode_utf8(t).len(), NUL),
    ensures
        decode_text(b, i) == Ok::<(Seq<char>, int), DecodeError>(
            (t, i + encode_utf8(t).len() + 1),
        ),
{
    let w = encode_utf8(t);
    let e = i + w.len();
    lemma_encode_utf8_no_zero(t);
    assert forall|k: int| i <= k < e implies b[k] != NUL by {
        assert(b[k] == b.subrange(i, e)[k - i]);
    }
    lemma_nul_index_at(b, i, e);
    encode_utf8_valid_utf8(t);
    encode_utf8_decode_utf8(t);
}

/// What a written field line reads back as.
pub open spec fn line_of(l: WireLine) -> LineView {
    match l {
        WireLine::Text { key, value } => LineView::Text { name: key, value },
        WireLine::Long { key, value } => LineView::Numeric { name: key, value },
        WireLine::Short { key, value } => LineView::Numeric { name: key, value },
    }
}

/// A written field line reads back as itself: its texts hold no `NUL`, a long-form value does
/// not start with the byte `SOH` (that is, its low byte is not 1), and a short-form value fits
/// in three bytes.
pub open spec fn wire_ok(l: WireLine) -> bool {
    match l {
        WireLine::Text { key, value } => no_nul(key) && no_nul(value),
        WireLine::Long { key, value } => no_nul(key) && value % 0x100 != 1,
        WireLine::Short { key, value } => no_nul(key) && value < 0x100_0000,
    }
}

/// The bytes of a value read back as the value, in either form.
pub proof fn lemma_le_bytes_value(v: u32)
    ensures
        long_value(le_bytes(v)[0], le_bytes(v)[1], le_bytes(v)[2], le_bytes(v)[3]) == v,
        v < 0x100_0000 ==> short_value(le_bytes(v)[0], le_bytes(v)[1], le_bytes(v)[2]) == v,
{
    assert((v % 0x100) + ((v / 0x100) % 0x100) * 0x100 + ((v / 0x1_0000) % 0x100) * 0x1_0000
        + (v / 0x100_0000) * 0x100_0000 == v) by (bit_vector);
    assert(v < 0x100_0000 ==> (v % 0x100) + ((v / 0x100) % 0x100) * 0x100 + ((v / 0x1_0000)
        % 0x100) * 0x1_0000 == v) by (bit_vector);
}

/// A written field line reads back as the line it was written for.
#[verifier::rlimit(30)]
pub proof fn lemma_decode_wire_line(b: Seq<u8>, i: int, l: WireLine)
    requires
        wire_ok(l),
        word_at(b, i, wire_bytes(l)),
    ensures
        decode_line(b, i) == Ok::<(LineView, int), DecodeError>(
            (line_of(l), i + wire_bytes(l).len()),
        ),
{
    reveal(wire_bytes);
    match l {
        WireLine::Text { key, value } => {
            let ek = encode_utf8(key);
            let ev = encode_utf8(value);
            lemma_word_split(b, i, seq![SOH] + ek + seq![NUL] + ev, seq![NUL]);
            lemma_word_split(b, i, seq![SOH] + ek + seq![NUL], ev);
            lemma_word_split(b, i, seq![SOH] + ek, seq![NUL]);
            lemma_word_split(b, i, seq![SOH], ek);
            lemma_word_byte(b, i, SOH);
            lemma_word_byte(b, i + 1 + ek.len(), NUL);
            lemma_word_byte(b, i + 1 + ek.len() + 1 + ev.len(), NUL);
            lemma_decode_text_at(b, i + 1, key);
            lemma_decode_text_at(b, i + 1 + ek.len() + 1, value);
        },
        WireLine::Long { key, value } => {
            let ek = encode_utf8(key);
            let j = i + 1 + ek.len() + 1;
            lemma_word_split(b, i, seq![STX] + ek + seq![NUL], le_bytes(value));
            lemma_word_split(b, i, seq![STX] + ek, seq![NUL]);
            lemma_word_split(b, i, seq![STX], ek);
            lemma_word_byte(b, i, STX);
            lemma_word_byte(b, i + 1 + ek.len(), NUL);
            lemma_decode_text_at(b, i + 1, key);
            let w = le_bytes(value);
            assert(b[j] == b.subrange(j, j + 4)[0]);
            assert(b[j + 1] == b.subrange(j, j + 4)[1]);
            assert(b[j + 2] == b.subrange(j, j + 4)[2]);
            assert(b[j + 3] == b.subrange(j, j + 4)[3]);
            assert(w[0] != SOH);
            lemma_le_bytes_value(value);
            assert(decode_number(b, j) == Ok::<(u32, int), DecodeError>(
                (value, j + 4),
            ));
        },
        WireLine::Short { key, value } => {
            let ek = encode_utf8(key);
            let j = i + 1 + ek.len() + 1;
            let w = le_bytes(value).take(3);
            lemma_word_split(b, i, seq![STX] + ek + seq![NUL] + seq![SOH], w);
            lemma_word_split(b, i, seq![STX] + ek + seq![NUL], seq![SOH]);
            lemma_word_split(b, i, seq![STX] + ek, seq![NUL]);
            lemma_word_split(b, i, seq![STX], ek);
            lemma_word_byte(b, i, STX);
            lemma_word_byte(b, i + 1 + ek.len(), NUL);
            lemma_word_byte(b, j, SOH);
            lemma_decode_text_at(b, i + 1, key);
            assert(b[j + 1] == b.subrange(j + 1, j + 4)[0]);
            assert(b[j + 2] == b.subrange(j + 1, j + 4)[1]);
            assert(b[j + 3] == b.subrange(j + 1, j + 4)[2]);
            lemma_le_bytes_value(value);
            assert(decode_number(b, j) == Ok::<(u32, int), DecodeError>(
                (value, j + 4),
            ));
        },
    }
}

/// The lines that written lines read back as.
pub open spec fn lines_of(ls: Seq<WireLine>) -> Seq<LineView> {
    ls.map_values(|l: WireLine| line_of(l))
}

proof fn lemma_wire_bytes_len(l: WireLine)
    ensures
        wire_bytes(l).len() > 0,
{
    reveal(wire_bytes);
}

proof fn lemma_wire_lines_front(ls: Seq<WireLine>)
    requires
        ls.len() > 0,
    ensures
        wire_lines_bytes(ls) == wire_bytes(ls[0]) + wire_lines_bytes(ls.drop_first()),
    decreases ls.len(),
{
    reveal(wire_lines_bytes);
    if ls.len() == 1 {
        assert(ls.drop_last() =~= Seq::<WireLine>::empty());
        assert(ls.drop_first() =~= Seq::<WireLine>::empty());
        assert(wire_lines_bytes(ls) =~= wire_bytes(ls[0]) + wire_lines_bytes(ls.drop_first()));
    } else {
        lemma_wire_lines_front(ls.drop_last());
        assert(ls.drop_last().drop_first() =~= ls.drop_first().drop_last());
        assert(ls.drop_first().last() == ls.last());
        assert(wire_lines_bytes(ls) =~= wire_bytes(ls[0]) + wire_lines_bytes(ls.drop_first()));
    }
}

/// Written field lines read back as the lines they were written for, when what follows them
/// opens no line.
pub proof fn lemma_decode_wire_lines(b: Seq<u8>, i: int, ls: Seq<WireLine>)
    requires
        forall|k: int| 0 <= k < ls.len() ==> wire_ok(#[trigger] ls[k]),
        word_at(b, i, wire_lines_bytes(ls)),
        !byte_at(b, i + wire_lines_bytes(ls).len(), SOH),
        !byte_at(b, i + wire_lines_bytes(ls).len(), STX),
    ensures
        decode_lines(b, i) == Ok::<(Seq<LineView>, int), DecodeError>(
            (lines_of(ls), i + wire_lines_bytes(ls).len()),
        ),
    decreases ls.len(),
{
    if ls.len() == 0 {
        reveal(wire_lines_bytes);
        assert(lines_of(ls) =~= Seq::<LineView>::empty());
    } else {
        lemma_wire_lines_front(ls);
        let w0 = wire_bytes(ls[0]);
        let rest = ls.drop_first();
        lemma_word_split(b, i, w0, wire_lines_bytes(rest));
        lemma_decode_wire_line(b, i, ls[0]);
        lemma_wire_bytes_len(ls[0]);
        assert forall|k: int| 0 <= k < rest.len() implies wire_ok(#[trigger] rest[k]) by {
            assert(rest[k] == ls[k + 1]);
        }
        lemma_decode_wire_lines(b, i + w0.len(), rest);
        assert(lines_of(ls) =~= seq![line_of(ls[0])] + lines_of(rest));
    }
}

/// A byte sequence holds no `NUL`.
pub open spec fn no_nul_byte(w: Seq<u8>) -> bool {
    forall|k: int| 0 <= k < w.len() ==> w[k] != NUL
}

proof fn lemma_tag_entries_front(indices: Seq<Seq<u8>>, tags: Seq<Seq<char>>)
    requires
        tags.len() > 0,
        indices.len() >= tags.len(),
    ensures
        tag_entries_bytes(indices, tags) == tag_entry_bytes(indices[0], tags[0])
            + tag_entries_bytes(indices.drop_first(), tags.drop_first()),
    decreases tags.len(),
{
    if tags.len() == 1 {
        assert(tags.drop_last() =~= Seq::<Seq<char>>::empty());
        assert(tags.drop_first() =~= Seq::<Seq<char>>::empty());
        assert(tag_entries_bytes(indices, tags.drop_last()) == Seq::<u8>::empty());
        assert(tag_entries_bytes(indices.drop_first(), tags.drop_first()) == Seq::<u8>::empty());
        assert(tags.last() == tags[0]);
        assert(tag_entries_bytes(indices, tags) =~= tag_entry_bytes(indices[0], tags[0])
            + tag_entries_bytes(indices.drop_first(), tags.drop_first()));
    } else {
        lemma_tag_entries_front(indices, tags.drop_last());
        assert(tags.drop_last()[0] == tags[0]);
        assert(tags.drop_last().drop_first() =~= tags.drop_first().drop_last());
        assert(tags.drop_first().last() == tags.last());
        assert(indices.drop_first()[tags.drop_first().len() - 1] == indices[tags.len() - 1]);
        assert(tag_entries_bytes(indices, tags) =~= tag_entry_bytes(indices[0], tags[0])
            + tag_entries_bytes(indices.drop_first(), tags.drop_first()));
    }
}

/// Tag entries followed by `BS` read back as their tags, in order, whatever their indices.
#[verifier::rlimit(30)]
proof fn lemma_decode_tag_entries(
    b: Seq<u8>,
    i: int,
    indices: Seq<Seq<u8>>,
    tags: Seq<Seq<char>>,
)
    requires
        indices.len() >= tags.len(),
        forall|k: int| 0 <= k < tags.len() ==> no_nul_byte(#[trigger] indices[k]),
        forall|k: int| 0 <= k < tags.len() ==> no_nul(#[trigger] tags[k]),
        word_at(b, i, tag_entries_bytes(indices, tags)),
        byte_at(b, i + tag_entries_bytes(indices, tags).len(), BS),
    ensures
        decode_tag_entries(b, i) == Ok::<(Seq<Seq<char>>, int), DecodeError>(
            (tags, i + tag_entries_bytes(indices, tags).len() + 1),
        ),
    decreases tags.len(),
{
    if tags.len() == 0 {
        assert(tags =~= Seq::<Seq<char>>::empty());
    } else {
        lemma_tag_entries_front(indices, tags);
        let idx = indices[0];
        let t = tags[0];
        let et = encode_utf8(t);
        let entry = tag_entry_bytes(idx, t);
        let rest_i = indices.drop_first();
        let rest_t = tags.drop_first();
        lemma_word_split(b, i, entry, tag_entries_bytes(rest_i, rest_t));
        lemma_word_split(b, i, seq![SOH] + idx + seq![NUL] + et, seq![NUL]);
        lemma_word_split(b, i, seq![SOH] + idx + seq![NUL], et);
        lemma_word_split(b, i, seq![SOH] + idx, seq![NUL]);
        lemma_word_split(b, i, seq![SOH], idx);
        lemma_word_byte(b, i, SOH);
        lemma_word_byte(b, i + 1 + idx.len(), NUL);
        lemma_word_byte(b, i + 1 + idx.len() + 1 + et.len(), NUL);
        assert(no_nul_byte(idx));
        assert forall|k: int| i + 1 <= k < i + 1 + idx.len() implies b[k] != NUL by {
            assert(b[k] == b.subrange(i + 1, i + 1 + idx.len())[k - (i + 1)]);
        }
        lemma_nul_index_at(b, i + 1, i + 1 + idx.len());
        lemma_decode_text_at(b, i + 1 + idx.len() + 1, t);
        assert forall|k: int| 0 <= k < rest_t.len() implies no_nul_byte(#[trigger] rest_i[k]) by {
            assert(rest_i[k] == indices[k + 1]);
        }
        assert forall|k: int| 0 <= k < rest_t.len() implies no_nul(#[trigger] rest_t[k]) by {
            assert(rest_t[k] == tags[k + 1]);
        }
        lemma_decode_tag_entries(b, i + entry.len(), rest_i, rest_t);
        assert(tags =~= seq![t] + rest_t);
    }
}

/// A tags block read at `i`, whatever index bytes its entries carry.
proof fn lemma_decode_tags_at(b: Seq<u8>, i: int, indices: Seq<Seq<u8>>, tags: Seq<Seq<char>>)
    requires
        indices.len() >= tags.len(),
        forall|k: int| 0 <= k < tags.len() ==> no_nul_byte(#[trigger] indices[k]),
        forall|k: int| 0 <= k < tags.len() ==> no_nul(#[trigger] tags[k]),
        word_at(
            b,
            i,
            seq![NUL] + tags_word() + seq![NUL] + tag_entries_bytes(indices, tags) + seq![BS],
        ),
    ensures
        decode_tags(b, i) == Ok::<(Seq<Seq<char>>, int), DecodeError>(
            (
                tags,
                i + (seq![NUL] + tags_word() + seq![NUL] + tag_entries_bytes(indices, tags)
                    + seq![BS]).len(),
            ),
        ),
{
    let e = tag_entries_bytes(indices, tags);
    lemma_word_split(b, i, seq![NUL] + tags_word() + seq![NUL] + e, seq![BS]);
    lemma_word_split(b, i, seq![NUL] + tags_word() + seq![NUL], e);
    lemma_word_split(b, i, seq![NUL] + tags_word(), seq![NUL]);
    lemma_word_split(b, i, seq![NUL], tags_word());
    lemma_word_byte(b, i, NUL);
    lemma_word_byte(b, i + 5, NUL);
    lemma_word_byte(b, i + 6 + e.len(), BS);
    lemma_decode_tag_entries(b, i + 6, indices, tags);
}

/// Tags come back in the order in which they stand, whatever index bytes their entries carry
/// (and not only the positions that the writer puts there).
pub proof fn lemma_tags_keep_order(indices: Seq<Seq<u8>>, tags: Seq<Seq<char>>)
    requires
        indices.len() == tags.len(),
        forall|k: int| 0 <= k < tags.len() ==> no_nul_byte(#[trigger] indices[k]),
        forall|k: int| 0 <= k < tags.len() ==> no_nul(#[trigger] tags[k]),
    ensures
        ({
            let block = seq![NUL] + tags_word() + seq![NUL] + tag_entries_bytes(indices, tags)
                + seq![BS];
            decode_tags(block, 0) == Ok::<(Seq<Seq<char>>, int), DecodeError>(
                (tags, block.len() as int),
            )
        }),
{
    let block = seq![NUL] + tags_word() + seq![NUL] + tag_entries_bytes(indices, tags) + seq![BS];
    assert(block.subrange(0, block.len() as int) =~= block);
    lemma_decode_tags_at(block, 0, indices, tags);
}

/// The decimal digits of a number read back as the number.
proof fn lemma_decimal_digits(n: nat)
    ensures
        decimal(n).len() >= 1,
        all_digits(decimal(n)),
        digits_value(decimal(n)) == n,
        no_nul_byte(decimal(n)),
    decreases n,
{
    lemma_decimal_ascii(n);
    if n >= 10 {
        lemma_decimal_digits(n / 10);
        let d = decimal(n);
        assert(d.drop_last() == decimal(n / 10));
        assert(d.last() == (0x30 + n % 10) as u8);
        assert(n % 10 < 10);
        assert((d.last() - 0x30) as nat == n % 10);
        assert(n == (n / 10) * 10 + n % 10) by (nonlinear_arith);
        assert(digits_value(d) == digits_value(decimal(n / 10)) * 10 + (d.last() - 0x30) as nat);
    } else {
        let d = decimal(n);
        assert(d.drop_last() =~= Seq::<u8>::empty());
        assert(digits_value(d.drop_last()) == 0);
        assert((d.last() - 0x30) as nat == n);
    }
}

proof fn lemma_last_with_name_at(lines: Seq<LineView>, key: Seq<char>, k: int)
    requires
        0 <= k < lines.len(),
        lines[k].name() == key,
        forall|j: int| k < j < lines.len() ==> (#[trigger] lines[j]).name() != key,
    ensures
        last_with_name(lines, key) == Some(lines[k]),
    decreases lines.len(),
{
    if k < lines.len() - 1 {
        let p = lines.drop_last();
        assert forall|j: int| k < j < p.len() implies (#[trigger] p[j]).name() != key by {
            assert(p[j] == lines[j]);
        }
        lemma_last_with_name_at(p, key, k);
    }
}

/// A record that the writer and the reader carry over unchanged: its texts and tags hold no
/// `NUL`, it is not hidden (the long form of 1 begins with `SOH`, which marks the short form),
/// and no other value written in the long form has 1 as its low byte, for the same reason.
pub open spec fn record_ok(r: ShortcutView) -> bool {
    &&& no_nul(r.app_name)
    &&& no_nul(r.exe)
    &&& no_nul(r.start_dir)
    &&& no_nul(r.icon)
    &&& no_nul(r.shortcut_path)
    &&& no_nul(r.launch_options)
    &&& no_nul(r.dev_kit_game_id)
    &&& !r.is_hidden
    &&& r.app_id % 0x100 != 1
    &&& r.open_vr % 0x100 != 1
    &&& r.dev_kit % 0x100 != 1
    &&& r.dev_kit_overrite_app_id % 0x100 != 1
    &&& r.last_play_time % 0x100 != 1
    &&& forall|k: int| 0 <= k < r.tags.len() ==> no_nul(#[trigger] r.tags[k])
}

/// The field lines written for a record read back as that record's fields.
#[verifier::rlimit(50)]
proof fn lemma_record_lines(r: ShortcutView)
    requires
        record_ok(r),
    ensures
        forall|k: int|
            0 <= k < record_wire_lines(r).len() ==> wire_ok(#[trigger] record_wire_lines(r)[k]),
        assemble(r.order, lines_of(record_wire_lines(r)), r.tags) == r,
{
    reveal(record_wire_lines);
    // The keys hold no NUL and differ pairwise: by length, or else by one character.
    reveal_strlit("appid");
    reveal_strlit("AppName");
    reveal_strlit("Exe");
    reveal_strlit("StartDir");
    reveal_strlit("icon");
    reveal_strlit("ShortcutPath");
    reveal_strlit("LaunchOptions");
    reveal_strlit("IsHidden");
    reveal_strlit("AllowDesktopConfig");
    reveal_strlit("AllowOverlay");
    reveal_strlit("openvr");
    reveal_strlit("Devkit");
    reveal_strlit("DevkitGameID");
    reveal_strlit("DevkitOverrideAppID");
    reveal_strlit("LastPlayTime");
    assert(no_nul("appid"@));
    assert(no_nul("AppName"@));
    assert(no_nul("Exe"@));
    assert(no_nul("StartDir"@));
    assert(no_nul("icon"@));
    assert(no_nul("ShortcutPath"@));
    assert(no_nul("LaunchOptions"@));
    assert(no_nul("IsHidden"@));
    assert(no_nul("AllowDesktopConfig"@));
    assert(no_nul("AllowOverlay"@));
    assert(no_nul("openvr"@));
    assert(no_nul("Devkit"@));
    assert(no_nul("DevkitGameID"@));
    assert(no_nul("DevkitOverrideAppID"@));
    assert(no_nul("LastPlayTime"@));
    assert("appid"@.len() != "AppName"@.len());
    assert("appid"@.len() != "Exe"@.len());
    assert("appid"@.len() != "StartDir"@.len());
    assert("appid"@.len() != "icon"@.len());
    assert("appid"@.len() != "ShortcutPath"@.len());
    assert("appid"@.len() != "LaunchOptions"@.len());
    assert("appid"@.len() != "IsHidden"@.len());
    assert("appid"@.len() != "AllowDesktopConfig"@.len());
    assert("appid"@.len() != "AllowOverlay"@.len());
    assert("appid"@.len() != "openvr"@.len());
    assert("appid"@.len() != "Devkit"@.len());
    assert("appid"@.len() != "DevkitGameID"@.len());
    assert("appid"@.len() != "DevkitOverrideAppID"@.len());
    assert("appid"@.len() != "LastPlayTime"@.len());
    assert("AppName"@.len() != "Exe"@.len());
    assert("AppName"@.len() != "StartDir"@.len());
    assert("AppName"@.len() != "icon"@.len());
    assert("AppName"@.len() != "ShortcutPath"@.len());
    assert("AppName"@.len() != "LaunchOptions"@.len());
    assert("AppName"@.len() != "IsHidden"@.len());
    assert("AppName"@.len() != "AllowDesktopConfig"@.len());
    assert("AppName"@.len() != "AllowOverlay"@.len());
    assert("AppName"@.len() != "openvr"@.len());
    assert("AppName"@.len() != "Devkit"@.len());
    assert("AppName"@.len() != "DevkitGameID"@.len());
    assert("AppName"@.len() != "DevkitOverrideAppID"@.len());
    assert("AppName"@.len() != "LastPlayTime"@.len());
    assert("Exe"@.len() != "StartDir"@.len());
    assert("Exe"@.len() != "icon"@.len());
    assert("Exe"@.len() != "ShortcutPath"@.len());
    assert("Exe"@.len() != "LaunchOptions"@.len());
    assert("Exe"@.len() != "IsHidden"@.len());
    assert("Exe"@.len() != "AllowDesktopConfig"@.len());
    assert("Exe"@.len() != "AllowOverlay"@.len());
    assert("Exe"@.len() != "openvr"@.len());
    assert("Exe"@.len() != "Devkit"@.len());
    assert("Exe"@.len() != "DevkitGameID"@.len());
    assert("Exe"@.len() != "DevkitOverrideAppID"@.len());
    assert("Exe"@.len() != "LastPlayTime"@.len());
    assert("StartDir"@.len() != "icon"@.len());
    assert("StartDir"@.len() != "ShortcutPath"@.len());
    assert("StartDir"@.len() != "LaunchOptions"@.len());
    assert("StartDir"@[0] != "IsHidden"@[0]);
    assert("StartDir"@.len() != "AllowDesktopConfig"@.len());
    assert("StartDir"@.len() != "AllowOverlay"@.len());
    assert("StartDir"@.len() != "openvr"@.len());
    assert("StartDir"@.len() != "Devkit"@.len());
    assert("StartDir"@.len() != "DevkitGameID"@.len());
    assert("StartDir"@.len() != "DevkitOverrideAppID"@.len());
    assert("StartDir"@.len() != "LastPlayTime"@.len());
    assert("icon"@.len() != "ShortcutPath"@.len());
    assert("icon"@.len() != "LaunchOptions"@.len());
    assert("icon"@.len() != "IsHidden"@.len());
    assert("icon"@.len() != "AllowDesktopConfig"@.len());
    assert("icon"@.len() != "AllowOverlay"@.len());
    assert("icon"@.len() != "openvr"@.len());
    assert("icon"@.len() != "Devkit"@.len());
    assert("icon"@.len() != "DevkitGameID"@.len());
    assert("icon"@.len() != "DevkitOverrideAppID"@.len());
    assert("icon"@.len() != "LastPlayTime"@.len());
    assert("ShortcutPath"@.len() != "LaunchOptions"@.len());
    assert("ShortcutPath"@.len() != "IsHidden"@.len());
    assert("ShortcutPath"@.len() != "AllowDesktopConfig"@.len());
    assert("ShortcutPath"@[0] != "AllowOverlay"@[0]);
    assert("ShortcutPath"@.len() != "openvr"@.len());
    assert("ShortcutPath"@.len() != "Devkit"@.len());
    assert("ShortcutPath"@[0] != "DevkitGameID"@[0]);
    assert("ShortcutPath"@.len() != "DevkitOverrideAppID"@.len());
    assert("ShortcutPath"@[0] != "LastPlayTime"@[0]);
    assert("LaunchOptions"@.len() != "IsHidden"@.len());
    assert("LaunchOptions"@.len() != "AllowDesktopConfig"@.len());
    assert("LaunchOptions"@.len() != "AllowOverlay"@.len());
    assert("LaunchOptions"@.len() != "openvr"@.len());
    assert("LaunchOptions"@.len() != "Devkit"@.len());
    assert("LaunchOptions"@.len() != "DevkitGameID"@.len());
    assert("LaunchOptions"@.len() != "DevkitOverrideAppID"@.len());
    assert("LaunchOptions"@.len() != "LastPlayTime"@.len());
    assert("IsHidden"@.len() != "AllowDesktopConfig"@.len());
    assert("IsHidden"@.len() != "AllowOverlay"@.len());
    assert("IsHidden"@.len() != "openvr"@.len());
    assert("IsHidden"@.len() != "Devkit"@.len());
    assert("IsHidden"@.len() != "DevkitGameID"@.len());
    assert("IsHidden"@.len() != "DevkitOverrideAppID"@.len());
    assert("IsHidden"@.len() != "LastPlayTime"@.len());
    assert("AllowDesktopConfig"@.len() != "AllowOverlay"@.len());
    assert("AllowDesktopConfig"@.len() != "openvr"@.len());
    assert("AllowDesktopConfig"@.len() != "Devkit"@.len());
    assert("AllowDesktopConfig"@.len() != "DevkitGameID"@.len());
    assert("AllowDesktopConfig"@.len() != "DevkitOverrideAppID"@.len());
    assert("AllowDesktopConfig"@.len() != "LastPlayTime"@.len());
    assert("AllowOverlay"@.len() != "openvr"@.len());
    assert("AllowOverlay"@.len() != "Devkit"@.len());
    assert("AllowOverlay"@[0] != "DevkitGameID"@[0]);
    assert("AllowOverlay"@.len() != "DevkitOverrideAppID"@.len());
    assert("AllowOverlay"@[0] != "LastPlayTime"@[0]);
    assert("openvr"@[0] != "Devkit"@[0]);
    assert("openvr"@.len() != "DevkitGameID"@.len());
    assert("openvr"@.len() != "DevkitOverrideAppID"@.len());
    assert("openvr"@.len() != "LastPlayTime"@.len());
    assert("Devkit"@.len() != "DevkitGameID"@.len());
    assert("Devkit"@.len() != "DevkitOverrideAppID"@.len());
    assert("Devkit"@.len() != "LastPlayTime"@.len());
    assert("DevkitGameID"@.len() != "DevkitOverrideAppID"@.len());
    assert("DevkitGameID"@[0] != "LastPlayTime"@[0]);
    assert("DevkitOverrideAppID"@.len() != "LastPlayTime"@.len());
    let ls = lines_of(record_wire_lines(r));
    assert(record_wire_lines(r).len() == 15);
    assert(ls.len() == 15);
    assert forall|k: int| 0 <= k < 15 implies (#[trigger] ls[k]) == line_of(
        record_wire_lines(r)[k],
    ) by {}
    lemma_last_with_name_at(ls, "appid"@, 0);
    lemma_last_with_name_at(ls, "AppName"@, 1);
    lemma_last_with_name_at(ls, "Exe"@, 2);
    lemma_last_with_name_at(ls, "StartDir"@, 3);
    lemma_last_with_name_at(ls, "icon"@, 4);
    lemma_last_with_name_at(ls, "ShortcutPath"@, 5);
    lemma_last_with_name_at(ls, "LaunchOptions"@, 6);
    lemma_last_with_name_at(ls, "IsHidden"@, 7);
    lemma_last_with_name_at(ls, "AllowDesktopConfig"@, 8);
    lemma_last_with_name_at(ls, "AllowOverlay"@, 9);
    lemma_last_with_name_at(ls, "openvr"@, 10);
    lemma_last_with_name_at(ls, "Devkit"@, 11);
    lemma_last_with_name_at(ls, "DevkitGameID"@, 12);
    lemma_last_with_name_at(ls, "DevkitOverrideAppID"@, 13);
    lemma_last_with_name_at(ls, "LastPlayTime"@, 14);
    reveal(assemble);
    assert(assemble(r.order, ls, r.tags) =~= r);
}

/// A record block with the given order, written field lines and tags.
pub open spec fn block_bytes(order: usize, ls: Seq<WireLine>, tags: Seq<Seq<char>>) -> Seq<u8> {
    seq![NUL] + decimal(order as nat) + seq![NUL] + wire_lines_bytes(ls) + tags_block_bytes(tags)
        + seq![BS]
}

/// A record block, whatever field lines it holds, reads as the record that its lines stand
/// for.
#[verifier::rlimit(30)]
proof fn lemma_decode_block(
    b: Seq<u8>,
    i: int,
    order: usize,
    ls: Seq<WireLine>,
    tags: Seq<Seq<char>>,
)
    requires
        forall|k: int| 0 <= k < ls.len() ==> wire_ok(#[trigger] ls[k]),
        forall|k: int| 0 <= k < tags.len() ==> no_nul(#[trigger] tags[k]),
        word_at(b, i, block_bytes(order, ls, tags)),
    ensures
        decode_record(b, i) == Ok::<(ShortcutView, int), DecodeError>(
            (assemble(order, lines_of(ls), tags), i + block_bytes(order, ls, tags).len()),
        ),
{
    let d = decimal(order as nat);
    let w = wire_lines_bytes(ls);
    let e = tag_entries_bytes(positions(tags.len()), tags);
    let t = tags_block_bytes(tags);
    lemma_word_split(b, i, seq![NUL] + d + seq![NUL] + w + t, seq![BS]);
    lemma_word_split(b, i, seq![NUL] + d + seq![NUL] + w, t);
    lemma_word_split(b, i, seq![NUL] + d + seq![NUL], w);
    lemma_word_split(b, i, seq![NUL] + d, seq![NUL]);
    lemma_word_split(b, i, seq![NUL], d);
    lemma_word_byte(b, i, NUL);
    lemma_word_byte(b, i + 1 + d.len(), NUL);
    let j = i + d.len() + 2;
    let k = j + w.len();
    let m = k + t.len();
    lemma_word_byte(b, m, BS);
    // The order.
    lemma_decimal_digits(order as nat);
    assert forall|x: int| i + 1 <= x < i + 1 + d.len() implies b[x] != NUL by {
        assert(b[x] == b.subrange(i + 1, i + 1 + d.len())[x - (i + 1)]);
    }
    lemma_nul_index_at(b, i + 1, i + 1 + d.len());
    assert(decode_order(b, i) == Ok::<(usize, int), DecodeError>((order, j)));
    // The field lines, which the tags block (opening with `NUL`) follows.
    lemma_word_split(b, k, seq![NUL] + tags_word() + seq![NUL] + e, seq![BS]);
    lemma_word_split(b, k, seq![NUL] + tags_word() + seq![NUL], e);
    lemma_word_split(b, k, seq![NUL] + tags_word(), seq![NUL]);
    lemma_word_split(b, k, seq![NUL], tags_word());
    lemma_word_byte(b, k, NUL);
    lemma_decode_wire_lines(b, j, ls);
    // The tags block.
    assert forall|x: int| 0 <= x < tags.len() implies no_nul_byte(
        #[trigger] positions(tags.len())[x],
    ) by {
        lemma_decimal_digits(x as nat);
    }
    lemma_decode_tags_at(b, k, positions(tags.len()), tags);
}

/// A written record block reads back as the record.
pub proof fn lemma_decode_record(b: Seq<u8>, i: int, r: ShortcutView)
    requires
        record_ok(r),
        word_at(b, i, record_bytes(r)),
    ensures
        decode_record(b, i) == Ok::<(ShortcutView, int), DecodeError>(
            (r, i + record_bytes(r).len()),
        ),
{
    reveal(record_bytes);
    assert(record_bytes(r) == block_bytes(r.order, record_wire_lines(r), r.tags));
    lemma_record_lines(r);
    lemma_decode_block(b, i, r.order, record_wire_lines(r), r.tags);
}

proof fn lemma_records_front(rs: Seq<ShortcutView>)
    requires
        rs.len() > 0,
    ensures
        records_bytes(rs) == record_bytes(rs[0]) + records_bytes(rs.drop_first()),
    decreases rs.len(),
{
    if rs.len() == 1 {
        assert(rs.drop_last() =~= Seq::<ShortcutView>::empty());
        assert(rs.drop_first() =~= Seq::<ShortcutView>::empty());
        assert(records_bytes(rs.drop_last()) == Seq::<u8>::empty());
        assert(records_bytes(rs.drop_first()) == Seq::<u8>::empty());
        assert(rs.last() == rs[0]);
        assert(records_bytes(rs) =~= record_bytes(rs[0]) + records_bytes(rs.drop_first()));
    } else {
        lemma_records_front(rs.drop_last());
        assert(rs.drop_last()[0] == rs[0]);
        assert(rs.drop_last().drop_first() =~= rs.drop_first().drop_last());
        assert(rs.drop_first().last() == rs.last());
        assert(records_bytes(rs) =~= record_bytes(rs[0]) + records_bytes(rs.drop_first()));
    }
}

proof fn lemma_record_bytes_start(r: ShortcutView)
    ensures
        record_bytes(r).len() > 0,
        record_bytes(r)[0] == NUL,
{
    reveal(record_bytes);
}

/// Written record blocks followed by `BS` read back as the records.
proof fn lemma_decode_records(b: Seq<u8>, i: int, rs: Seq<ShortcutView>)
    requires
        forall|k: int| 0 <= k < rs.len() ==> record_ok(#[trigger] rs[k]),
        word_at(b, i, records_bytes(rs)),
        byte_at(b, i + records_bytes(rs).len(), BS),
    ensures
        decode_records(b, i) == Ok::<(Seq<ShortcutView>, int), DecodeError>(
            (rs, i + records_bytes(rs).len() + 1),
        ),
    decreases rs.len(),
{
    if rs.len() == 0 {
        assert(rs =~= Seq::<ShortcutView>::empty());
    } else {
        lemma_records_front(rs);
        let first = record_bytes(rs[0]);
        let rest = rs.drop_first();
        lemma_word_split(b, i, first, records_bytes(rest));
        lemma_record_bytes_start(rs[0]);
        assert(b[i] == b.subrange(i, i + first.len())[0]);
        lemma_decode_record(b, i, rs[0]);
        assert forall|k: int| 0 <= k < rest.len() implies record_ok(#[trigger] rest[k]) by {
            assert(rest[k] == rs[k + 1]);
        }
        lemma_decode_records(b, i + first.len(), rest);
        assert(rs =~= seq![rs[0]] + rest);
    }
}

proof fn lemma_stream_header(rs: Seq<ShortcutView>)
    ensures
        byte_at(encode_shortcuts(rs), 0, NUL),
        word_at(encode_shortcuts(rs), 1, shortcuts_word()),
        byte_at(encode_shortcuts(rs), 10, NUL),
        word_at(encode_shortcuts(rs), 11, records_bytes(rs)),
        byte_at(encode_shortcuts(rs), (11 + records_bytes(rs).len()) as int, BS),
        encode_shortcuts(rs).len() == 13 + records_bytes(rs).len(),
{
    let b = encode_shortcuts(rs);
    let body = records_bytes(rs);
    assert(b.subrange(0, b.len() as int) =~= b);
    lemma_word_split(b, 0, seq![NUL] + shortcuts_word() + seq![NUL] + body, seq![BS, BS]);
    lemma_word_split(b, 0, seq![NUL] + shortcuts_word() + seq![NUL], body);
    lemma_word_split(b, 0, seq![NUL] + shortcuts_word(), seq![NUL]);
    lemma_word_split(b, 0, seq![NUL], shortcuts_word());
    lemma_word_byte(b, 0, NUL);
    lemma_word_byte(b, 10, NUL);
    let end = (11 + body.len()) as int;
    assert(seq![BS, BS] =~= seq![BS] + seq![BS]);
    lemma_word_split(b, end, seq![BS], seq![BS]);
    lemma_word_byte(b, end, BS);
}

/// Reading what the writer wrote gives back the records written, and stops just before the
/// last of the two closing `BS` bytes. This holds of every list of records whose texts and
/// tags hold no `NUL`, that are not hidden, and whose other values written in the long form
/// do not have 1 as their low byte (see [`record_ok`]).
#[verifier::rlimit(30)]
pub proof fn lemma_round_trip(rs: Seq<ShortcutView>)
    requires
        forall|k: int| 0 <= k < rs.len() ==> record_ok(#[trigger] rs[k]),
    ensures
        decode_stream(encode_shortcuts(rs)) == Ok::<(Seq<ShortcutView>, int), DecodeError>(
            (rs, encode_shortcuts(rs).len() - 1),
        ),
        shortcuts_of(encode_shortcuts(rs)) == Ok::<Seq<ShortcutView>, DecodeError>(rs),
{
    let b = encode_shortcuts(rs);
    lemma_stream_header(rs);
    lemma_decode_records(b, 11, rs);
}

/// Two buffers hold the same first `n` bytes.
pub open spec fn agree(b1: Seq<u8>, b2: Seq<u8>, n: int) -> bool {
    &&& 0 <= n <= b1.len()
    &&& n <= b2.len()
    &&& forall|k: int| 0 <= k < n ==> b1[k] == b2[k]
}

proof fn lemma_nul_prefix(b1: Seq<u8>, b2: Seq<u8>, i: int, n: int)
    requires
        0 <= i,
        nul_index(b1, i) matches Some(e) && e < n,
        agree(b1, b2, n),
    ensures
        nul_index(b2, i) == nul_index(b1, i),
        nul_index(b1, i) matches Some(e) && i <= e < b1.len(),
    decreases b1.len() - i,
{
    if b1[i] != NUL {
        lemma_nul_prefix(b1, b2, i + 1, n);
    }
}

proof fn lemma_text_prefix(b1: Seq<u8>, b2: Seq<u8>, i: int, n: int)
    requires
        0 <= i,
        decode_text(b1, i) matches Ok((_, e)) && e <= n,
        agree(b1, b2, n),
    ensures
        decode_text(b2, i) == decode_text(b1, i),
        decode_text(b1, i) matches Ok((_, e)) && i < e <= b1.len(),
{
    lemma_nul_prefix(b1, b2, i, n);
    let e = nul_index(b1, i)->Some_0;
    assert(b1.subrange(i, e) =~= b2.subrange(i, e));
}

proof fn lemma_order_prefix(b1: Seq<u8>, b2: Seq<u8>, i: int, n: int)
    requires
        0 <= i,
        decode_order(b1, i) matches Ok((_, e)) && e <= n,
        agree(b1, b2, n),
    ensures
        decode_order(b2, i) == decode_order(b1, i),
        decode_order(b1, i) matches Ok((_, e)) && i < e <= b1.len(),
{
    lemma_nul_prefix(b1, b2, i + 1, n);
    let e = nul_index(b1, i + 1)->Some_0;
    assert(b1.subrange(i + 1, e) =~= b2.subrange(i + 1, e));
}

proof fn lemma_line_prefix(b1: Seq<u8>, b2: Seq<u8>, i: int, n: int)
    requires
        0 <= i,
        decode_line(b1, i) matches Ok((_, e)) && e <= n,
        agree(b1, b2, n),
    ensures
        decode_line(b2, i) == decode_line(b1, i),
        decode_line(b1, i) matches Ok((_, e)) && i < e <= b1.len(),
{
    let j = decode_text(b1, i + 1)->Ok_0.1;
    if byte_at(b1, i, SOH) {
        lemma_text_prefix(b1, b2, j, n);
        lemma_text_prefix(b1, b2, i + 1, n);
    } else {
        lemma_text_prefix(b1, b2, i + 1, n);
        assert(decode_number(b2, j) == decode_number(b1, j));
    }
}

proof fn lemma_lines_prefix(b1: Seq<u8>, b2: Seq<u8>, i: int, n: int)
    requires
        0 <= i,
        decode_lines(b1, i) matches Ok((_, e)) && e < n,
        agree(b1, b2, n),
    ensures
        decode_lines(b2, i) == decode_lines(b1, i),
        decode_lines(b1, i) matches Ok((_, e)) && i <= e <= b1.len(),
    decreases b1.len() - i,
{
    if byte_at(b1, i, SOH) || byte_at(b1, i, STX) {
        let j = decode_line(b1, i)->Ok_0.1;
        lemma_lines_prefix(b1, b2, j, n);
        lemma_line_prefix(b1, b2, i, n);
    }
}

proof fn lemma_tag_entries_prefix(b1: Seq<u8>, b2: Seq<u8>, i: int, n: int)
    requires
        0 <= i,
        decode_tag_entries(b1, i) matches Ok((_, e)) && e <= n,
        agree(b1, b2, n),
    ensures
        decode_tag_entries(b2, i) == decode_tag_entries(b1, i),
        decode_tag_entries(b1, i) matches Ok((_, e)) && i < e <= b1.len(),
    decreases b1.len() - i,
{
    if !byte_at(b1, i, BS) {
        let e = nul_index(b1, i + 1)->Some_0;
        let j = decode_text(b1, e + 1)->Ok_0.1;
        lemma_tag_entries_prefix(b1, b2, j, n);
        lemma_text_prefix(b1, b2, e + 1, n);
        lemma_nul_prefix(b1, b2, i + 1, n);
    }
}

proof fn lemma_tags_prefix(b1: Seq<u8>, b2: Seq<u8>, i: int, n: int)
    requires
        0 <= i,
        decode_tags(b1, i) matches Ok((_, e)) && e <= n,
        agree(b1, b2, n),
    ensures
        decode_tags(b2, i) == decode_tags(b1, i),
        decode_tags(b1, i) matches Ok((_, e)) && i + 6 < e <= b1.len(),
{
    lemma_tag_entries_prefix(b1, b2, i + 6, n);
    assert(b1.subrange(i + 1, i + 5) =~= b2.subrange(i + 1, i + 5));
}

proof fn lemma_record_prefix(b1: Seq<u8>, b2: Seq<u8>, i: int, n: int)
    requires
        0 <= i,
        decode_record(b1, i) matches Ok((_, e)) && e <= n,
        agree(b1, b2, n),
    ensures
        decode_record(b2, i) == decode_record(b1, i),
        decode_record(b1, i) matches Ok((_, e)) && i < e <= b1.len(),
{
    let j = decode_order(b1, i)->Ok_0.1;
    let k = decode_lines(b1, j)->Ok_0.1;
    let m = decode_tags(b1, k)->Ok_0.1;
    lemma_tags_prefix(b1, b2, k, n);
    lemma_lines_prefix(b1, b2, j, n);
    lemma_order_prefix(b1, b2, i, n);
}

proof fn lemma_records_prefix(b1: Seq<u8>, b2: Seq<u8>, i: int, n: int)
    requires
        0 <= i,
        decode_records(b1, i) matches Ok((_, e)) && e <= n,
        agree(b1, b2, n),
    ensures
        decode_records(b2, i) == decode_records(b1, i),
        decode_records(b1, i) matches Ok((_, e)) && i < e,
    decreases b1.len() - i,
{
    if byte_at(b1, i, NUL) {
        let j = decode_record(b1, i)->Ok_0.1;
        lemma_records_prefix(b1, b2, j, n);
        lemma_record_prefix(b1, b2, i, n);
    }
}

proof fn lemma_records_end(b: Seq<u8>, i: int)
    requires
        decode_records(b, i) is Ok,
    ensures
        decode_records(b, i) matches Ok((_, e)) && i < e <= b.len(),
    decreases b.len() - i,
{
    if byte_at(b, i, NUL) {
        lemma_records_end(b, decode_record(b, i)->Ok_0.1);
    }
}

/// The reader reads no byte past the position where it stops: a buffer cut anywhere before
/// that position does not read.
proof fn lemma_truncated_fails(b: Seq<u8>, k: int)
    requires
        decode_stream(b) matches Ok((_, end)) && 0 <= k < end,
    ensures
        shortcuts_of(b.take(k)) is Err,
{
    let p = b.take(k);
    assert(decode_records(b, 11) == decode_stream(b));
    lemma_records_end(b, 11);
    assert(p.len() == k);
    if decode_stream(p) is Ok {
        assert(decode_records(p, 11) == decode_stream(p));
        lemma_records_end(p, 11);
        let j = decode_stream(p)->Ok_0.1;
        assert(j <= k);
        assert forall|x: int| 0 <= x < j implies p[x] == b[x] by {}
        assert(agree(p, b, j));
        lemma_records_prefix(p, b, 11, j);
        assert(p.subrange(1, 10) =~= b.subrange(1, 10));
    }
}

/// A written buffer cut anywhere before its two closing `BS` bytes does not read, and the
/// error names what was expected.
pub proof fn lemma_written_truncated_fails(rs: Seq<ShortcutView>, k: int)
    requires
        forall|x: int| 0 <= x < rs.len() ==> record_ok(#[trigger] rs[x]),
        0 <= k <= encode_shortcuts(rs).len() - 2,
    ensures
        shortcuts_of(encode_shortcuts(rs).take(k)) matches Err(DecodeError::Expected { .. }),
{
    lemma_round_trip(rs);
    lemma_truncated_fails_expecting(encode_shortcuts(rs), k);
}

/// A numeric line written in the short form and the same line written in the long form, at
/// the same place of two buffers, read as the same line and end at the same place: for every
/// value that fits in three bytes and whose low byte is not 1 (the long form of such a value
/// would begin with `SOH`, the mark of the short form).
pub proof fn lemma_short_and_long_forms_agree(
    b1: Seq<u8>,
    b2: Seq<u8>,
    i: int,
    key: Seq<char>,
    value: u32,
)
    requires
        no_nul(key),
        value < 0x100_0000,
        value % 0x100 != 1,
        word_at(b1, i, wire_bytes(WireLine::Long { key, value })),
        word_at(b2, i, wire_bytes(WireLine::Short { key, value })),
    ensures
        decode_line(b1, i) == decode_line(b2, i),
        decode_line(b1, i) == Ok::<(LineView, int), DecodeError>(
            (LineView::Numeric { name: key, value }, i + wire_bytes(WireLine::Long { key, value }).len()),
        ),
{
    lemma_decode_wire_line(b1, i, WireLine::Long { key, value });
    lemma_decode_wire_line(b2, i, WireLine::Short { key, value });
    reveal(wire_bytes);
}

/// Whether a key names a field of a record.
pub open spec fn is_field_key(key: Seq<char>) -> bool {
    ||| key == "appid"@
    ||| key == "AppName"@
    ||| key == "Exe"@
    ||| key == "StartDir"@
    ||| key == "icon"@
    ||| key == "ShortcutPath"@
    ||| key == "LaunchOptions"@
    ||| key == "IsHidden"@
    ||| key == "AllowDesktopConfig"@
    ||| key == "AllowOverlay"@
    ||| key == "openvr"@
    ||| key == "Devkit"@
    ||| key == "DevkitGameID"@
    ||| key == "DevkitOverrideAppID"@
    ||| key == "LastPlayTime"@
}

proof fn lemma_last_with_name_insert(lines: Seq<LineView>, k: int, l: LineView, key: Seq<char>)
    requires
        0 <= k <= lines.len(),
        l.name() != key,
    ensures
        last_with_name(lines.insert(k, l), key) == last_with_name(lines, key),
    decreases lines.len(),
{
    let s = lines.insert(k, l);
    if k == lines.len() {
        assert(s.drop_last() =~= lines);
        assert(s.last() == l);
    } else {
        assert(s.last() == lines.last());
        assert(s.drop_last() =~= lines.drop_last().insert(k, l));
        if lines.last().name() != key {
            lemma_last_with_name_insert(lines.drop_last(), k, l, key);
        }
    }
}

/// A field line whose key names no field of a record changes nothing in the record that the
/// lines stand for, wherever it stands among them.
pub proof fn lemma_unknown_key_ignored(
    order: usize,
    lines: Seq<LineView>,
    k: int,
    l: LineView,
    tags: Seq<Seq<char>>,
)
    requires
        0 <= k <= lines.len(),
        !is_field_key(l.name()),
    ensures
        assemble(order, lines.insert(k, l), tags) == assemble(order, lines, tags),
{
    reveal(assemble);
    lemma_last_with_name_insert(lines, k, l, "appid"@);
    lemma_last_with_name_insert(lines, k, l, "AppName"@);
    lemma_last_with_name_insert(lines, k, l, "Exe"@);
    lemma_last_with_name_insert(lines, k, l, "StartDir"@);
    lemma_last_with_name_insert(lines, k, l, "icon"@);
    lemma_last_with_name_insert(lines, k, l, "ShortcutPath"@);
    lemma_last_with_name_insert(lines, k, l, "LaunchOptions"@);
    lemma_last_with_name_insert(lines, k, l, "IsHidden"@);
    lemma_last_with_name_insert(lines, k, l, "AllowDesktopConfig"@);
    lemma_last_with_name_insert(lines, k, l, "AllowOverlay"@);
    lemma_last_with_name_insert(lines, k, l, "openvr"@);
    lemma_last_with_name_insert(lines, k, l, "Devkit"@);
    lemma_last_with_name_insert(lines, k, l, "DevkitGameID"@);
    lemma_last_with_name_insert(lines, k, l, "DevkitOverrideAppID"@);
    lemma_last_with_name_insert(lines, k, l, "LastPlayTime"@);
}

/// The block of a record, written with one more field line whose key names no field, at any
/// place among its lines, still reads as the record.
#[verifier::rlimit(30)]
pub proof fn lemma_block_with_unknown_line(r: ShortcutView, k: int, l: WireLine)
    requires
        record_ok(r),
        wire_ok(l),
        !is_field_key(line_of(l).name()),
        0 <= k <= record_wire_lines(r).len(),
    ensures
        ({
            let b = block_bytes(r.order, record_wire_lines(r).insert(k, l), r.tags);
            decode_record(b, 0) == Ok::<(ShortcutView, int), DecodeError>((r, b.len() as int))
        }),
{
    let ls = record_wire_lines(r);
    let ls2 = ls.insert(k, l);
    let b = block_bytes(r.order, ls2, r.tags);
    lemma_record_lines(r);
    lemma_insert_line(ls, k, l);
    assert(b.subrange(0, b.len() as int) =~= b);
    lemma_decode_block(b, 0, r.order, ls2, r.tags);
    lemma_unknown_key_ignored(r.order, lines_of(ls), k, line_of(l), r.tags);
}

proof fn lemma_insert_line(ls: Seq<WireLine>, k: int, l: WireLine)
    requires
        forall|x: int| 0 <= x < ls.len() ==> wire_ok(#[trigger] ls[x]),
        wire_ok(l),
        0 <= k <= ls.len(),
    ensures
        forall|x: int| 0 <= x < ls.insert(k, l).len() ==> wire_ok(#[trigger] ls.insert(k, l)[x]),
        lines_of(ls.insert(k, l)) == lines_of(ls).insert(k, line_of(l)),
{
    let ls2 = ls.insert(k, l);
    assert forall|x: int| 0 <= x < ls2.len() implies wire_ok(#[trigger] ls2[x]) by {
        if x < k {
            assert(ls2[x] == ls[x]);
        } else if x > k {
            assert(ls2[x] == ls[x - 1]);
        }
    }
    assert(lines_of(ls2) =~= lines_of(ls).insert(k, line_of(l)));
}

proof fn lemma_update_line(ls: Seq<WireLine>, k: int, l: WireLine)
    requires
        forall|x: int| 0 <= x < ls.len() ==> wire_ok(#[trigger] ls[x]),
        wire_ok(l),
        0 <= k < ls.len(),
        line_of(l) == line_of(ls[k]),
    ensures
        forall|x: int| 0 <= x < ls.update(k, l).len() ==> wire_ok(#[trigger] ls.update(k, l)[x]),
        lines_of(ls.update(k, l)) == lines_of(ls),
{
    let ls2 = ls.update(k, l);
    assert forall|x: int| 0 <= x < ls2.len() implies wire_ok(#[trigger] ls2[x]) by {
        if x != k {
            assert(ls2[x] == ls[x]);
        }
    }
    assert(lines_of(ls2) =~= lines_of(ls));
}

/// The block of a record in which one numeric line is written in the short form instead of
/// the long one still reads as the record, when the value fits in three bytes.
#[verifier::rlimit(30)]
pub proof fn lemma_block_with_short_form(r: ShortcutView, k: int)
    requires
        record_ok(r),
        0 <= k < record_wire_lines(r).len(),
        record_wire_lines(r)[k] matches WireLine::Long { value, .. } && value < 0x100_0000,
    ensures
        ({
            let l = record_wire_lines(r)[k];
            let short = WireLine::Short { key: l->Long_key, value: l->Long_value };
            let b = block_bytes(r.order, record_wire_lines(r).update(k, short), r.tags);
            decode_record(b, 0) == Ok::<(ShortcutView, int), DecodeError>((r, b.len() as int))
        }),
{
    let ls = record_wire_lines(r);
    let l = ls[k];
    let short = WireLine::Short { key: l->Long_key, value: l->Long_value };
    let ls2 = ls.update(k, short);
    let b = block_bytes(r.order, ls2, r.tags);
    lemma_record_lines(r);
    assert(wire_ok(l));
    lemma_update_line(ls, k, short);
    assert(b.subrange(0, b.len() as int) =~= b);
    lemma_decode_block(b, 0, r.order, ls2, r.tags);
}

/// `p` is `b` cut after its first `p.len()` bytes.
pub open spec fn is_prefix(p: Seq<u8>, b: Seq<u8>) -> bool {
    p.len() <= b.len() && p == b.take(p.len() as int)
}

proof fn lemma_prefix_agree(p: Seq<u8>, b: Seq<u8>, n: int)
    requires
        is_prefix(p, b),
        0 <= n <= p.len(),
    ensures
        agree(p, b, n),
{
    assert forall|k: int| 0 <= k < n implies p[k] == b[k] by {}
}

proof fn lemma_nul_end(b: Seq<u8>, i: int)
    requires
        0 <= i,
    ensures
        nul_index(b, i) matches Some(e) ==> i <= e < b.len(),
    decreases b.len() - i,
{
    if 0 <= i < b.len() && b[i] != NUL {
        lemma_nul_end(b, i + 1);
    }
}

proof fn lemma_lines_end(b: Seq<u8>, i: int)
    requires
        0 <= i,
    ensures
        decode_lines(b, i) matches Ok((_, e)) ==> e <= b.len() || e == i,
    decreases b.len() - i,
{
    if (byte_at(b, i, SOH) || byte_at(b, i, STX)) && decode_line(b, i) is Ok {
        let j = decode_line(b, i)->Ok_0.1;
        if i < j <= b.len() {
            lemma_lines_end(b, j);
        }
    }
}

proof fn lemma_tag_entries_end(b: Seq<u8>, i: int)
    requires
        0 <= i,
    ensures
        decode_tag_entries(b, i) matches Ok((_, e)) ==> i < e <= b.len(),
    decreases b.len() - i,
{
    if !byte_at(b, i, BS) && byte_at(b, i, SOH) && nul_index(b, i + 1) is Some {
        let e = nul_index(b, i + 1)->Some_0;
        if decode_text(b, e + 1) is Ok {
            let j = decode_text(b, e + 1)->Ok_0.1;
            if i < j <= b.len() {
                lemma_tag_entries_end(b, j);
            }
        }
    }
}

proof fn lemma_text_cut(b: Seq<u8>, p: Seq<u8>, i: int)
    requires
        is_prefix(p, b),
        0 <= i,
        decode_text(b, i) is Ok,
    ensures
        decode_text(p, i) matches Err(err) ==> err is Expected,
        decode_text(p, i) matches Ok((_, e)) ==> decode_text(p, i) == decode_text(b, i),
{
    if nul_index(p, i) is Some {
        let e = nul_index(p, i)->Some_0;
        lemma_nul_end(p, i);
        lemma_prefix_agree(p, b, e + 1);
        lemma_nul_prefix(p, b, i, e + 1);
        assert(p.subrange(i, e) =~= b.subrange(i, e));
    }
}

proof fn lemma_line_cut(b: Seq<u8>, p: Seq<u8>, i: int)
    requires
        is_prefix(p, b),
        0 <= i,
        decode_line(b, i) is Ok,
    ensures
        decode_line(p, i) matches Err(err) ==> err is Expected,
        decode_line(p, i) matches Ok((_, e)) ==> decode_line(p, i) == decode_line(b, i),
{
    if byte_at(p, i, SOH) || byte_at(p, i, STX) {
        assert(p[i] == b[i]);
        lemma_text_cut(b, p, i + 1);
        if decode_text(p, i + 1) is Ok {
            let j = decode_text(p, i + 1)->Ok_0.1;
            if byte_at(p, i, SOH) {
                lemma_text_cut(b, p, j);
            }
        }
    }
}

proof fn lemma_lines_cut(b: Seq<u8>, p: Seq<u8>, i: int)
    requires
        is_prefix(p, b),
        0 <= i <= p.len(),
        decode_lines(b, i) is Ok,
    ensures
        decode_lines(p, i) matches Err(err) ==> err is Expected,
        decode_lines(p, i) matches Ok((_, e)) ==> decode_lines(p, i) == decode_lines(b, i) || e
            == p.len(),
    decreases p.len() - i,
{
    if byte_at(p, i, SOH) || byte_at(p, i, STX) {
        assert(p[i] == b[i]);
        lemma_line_cut(b, p, i);
        if decode_line(p, i) is Ok {
            let j = decode_line(p, i)->Ok_0.1;
            if i < j <= p.len() {
                lemma_lines_cut(b, p, j);
            }
        }
    } else if i < p.len() {
        assert(p[i] == b[i]);
    }
}

proof fn lemma_tag_entries_cut(b: Seq<u8>, p: Seq<u8>, i: int)
    requires
        is_prefix(p, b),
        0 <= i,
        decode_tag_entries(b, i) is Ok,
    ensures
        decode_tag_entries(p, i) matches Err(err) ==> err is Expected,
    decreases p.len() - i,
{
    if !byte_at(p, i, BS) && byte_at(p, i, SOH) {
        assert(p[i] == b[i]);
        if nul_index(p, i + 1) is Some {
            let e = nul_index(p, i + 1)->Some_0;
            lemma_nul_end(p, i + 1);
            lemma_prefix_agree(p, b, e + 1);
            lemma_nul_prefix(p, b, i + 1, e + 1);
            lemma_text_cut(b, p, e + 1);
            if decode_text(p, e + 1) is Ok {
                let j = decode_text(p, e + 1)->Ok_0.1;
                if i < j <= p.len() {
                    lemma_tag_entries_cut(b, p, j);
                }
            }
        }
    }
}

proof fn lemma_tags_cut(b: Seq<u8>, p: Seq<u8>, i: int)
    requires
        is_prefix(p, b),
        0 <= i,
        decode_tags(b, i) is Ok,
    ensures
        decode_tags(p, i) matches Err(err) ==> err is Expected,
        decode_tags(p, i) matches Ok((_, e)) ==> decode_tags(p, i) == decode_tags(b, i),
{
    if byte_at(p, i, NUL) && word_at(p, i + 1, tags_word()) && byte_at(p, i + 5, NUL) {
        lemma_tag_entries_cut(b, p, i + 6);
        if decode_tag_entries(p, i + 6) is Ok {
            lemma_tag_entries_end(p, i + 6);
            let e = decode_tag_entries(p, i + 6)->Ok_0.1;
            lemma_prefix_agree(p, b, e);
            lemma_tag_entries_prefix(p, b, i + 6, e);
        }
    }
}

#[verifier::rlimit(30)]
proof fn lemma_record_cut(b: Seq<u8>, p: Seq<u8>, i: int)
    requires
        is_prefix(p, b),
        0 <= i,
        decode_record(b, i) is Ok,
    ensures
        decode_record(p, i) matches Err(err) ==> err is Expected,
        decode_record(p, i) matches Ok((_, e)) ==> decode_record(p, i) == decode_record(b, i),
{
    if decode_order(p, i) is Ok {
        let j = decode_order(p, i)->Ok_0.1;
        lemma_nul_end(p, i + 1);
        lemma_prefix_agree(p, b, j);
        lemma_order_prefix(p, b, i, j);
        lemma_lines_cut(b, p, j);
        if decode_lines(p, j) is Ok {
            let k = decode_lines(p, j)->Ok_0.1;
            if decode_lines(p, j) == decode_lines(b, j) {
                lemma_tags_cut(b, p, k);
                if decode_tags(p, k) is Ok {
                    let m = decode_tags(p, k)->Ok_0.1;
                    if byte_at(p, m, BS) {
                        assert(p[m] == b[m]);
                    }
                }
            }
        }
    }
}

proof fn lemma_records_cut(b: Seq<u8>, p: Seq<u8>, i: int)
    requires
        is_prefix(p, b),
        0 <= i,
        decode_records(b, i) is Ok,
    ensures
        decode_records(p, i) matches Err(err) ==> err is Expected,
    decreases p.len() - i,
{
    if byte_at(p, i, NUL) {
        assert(p[i] == b[i]);
        lemma_record_cut(b, p, i);
        if decode_record(p, i) is Ok {
            let j = decode_record(p, i)->Ok_0.1;
            if i < j <= p.len() {
                lemma_records_cut(b, p, j);
            }
        }
    }
}

/// A buffer cut anywhere before the position where the reader stops reading it fails with an
/// error that names what was expected (never with an error about text, since every text
/// that the cut buffer still holds whole reads as it did).
pub proof fn lemma_truncated_fails_expecting(b: Seq<u8>, k: int)
    requires
        decode_stream(b) matches Ok((_, end)) && 0 <= k < end,
    ensures
        shortcuts_of(b.take(k)) matches Err(DecodeError::Expected { .. }),
{
    lemma_truncated_fails(b, k);
    let p = b.take(k);
    lemma_records_end(b, 11);
    assert(is_prefix(p, b));
    if byte_at(p, 0, NUL) && word_at(p, 1, shortcuts_word()) && byte_at(p, 10, NUL) {
        assert(p.subrange(1, 10) =~= b.subrange(1, 10));
        lemma_records_cut(b, p, 11);
    }
}

} // verus!
