//! Writing shortcut records as bytes.
use vstd::prelude::*;

use crate::bytes::{append_bytes, push_decimal};
use crate::format::{
    decimal, encode_shortcuts, flag_value, le_bytes, positions, record_bytes, record_wire_lines,
    records_bytes, tag_entries_bytes, tag_entry_bytes, tags_block_bytes, wire_bytes,
    wire_lines_bytes, WireLine, BS, NUL, SOH, STX,
};
use crate::shortcut::{shortcut_views, text_views, Shortcut};

verus! {

/// One more written line extends the bytes of the lines written so far.
proof fn lemma_wire_lines_step(
    before: Seq<u8>,
    after: Seq<u8>,
    mid: Seq<u8>,
    ls: Seq<WireLine>,
    l: WireLine,
)
    requires
        before == mid + wire_lines_bytes(ls),
        after == before + wire_bytes(l),
    ensures
        after == mid + wire_lines_bytes(ls.push(l)),
{
    reveal(wire_lines_bytes);
    assert(ls.push(l).drop_last() == ls);
    assert(after =~= mid + wire_lines_bytes(ls.push(l)));
}

/// Appends a text line.
fn push_text_line(out: &mut Vec<u8>, key: &str, value: &str)
    ensures
        final(out)@ == old(out)@ + wire_bytes(WireLine::Text { key: key@, value: value@ }),
{
    reveal(wire_bytes);
    out.push(SOH);
    append_bytes(out, key.as_bytes());
    out.push(NUL);
    append_bytes(out, value.as_bytes());
    out.push(NUL);
    assert(final(out)@ =~= old(out)@ + wire_bytes(WireLine::Text { key: key@, value: value@ }));
}

/// Appends a numeric line in the long form.
fn push_numeric_line(out: &mut Vec<u8>, key: &str, value: u32)
    ensures
        final(out)@ == old(out)@ + wire_bytes(WireLine::Long { key: key@, value }),
{
    reveal(wire_bytes);
    out.push(STX);
    append_bytes(out, key.as_bytes());
    out.push(NUL);
    out.push((value % 0x100) as u8);
    out.push(((value / 0x100) % 0x100) as u8);
    out.push(((value / 0x1_0000) % 0x100) as u8);
    out.push((value / 0x100_0000) as u8);
    assert(final(out)@ =~= old(out)@ + wire_bytes(WireLine::Long { key: key@, value }));
}

/// Appends a flag line in the short form: `SOH NUL NUL` and 1 or 0.
fn push_flag_line(out: &mut Vec<u8>, key: &str, flag: bool)
    ensures
        final(out)@ == old(out)@ + wire_bytes(WireLine::Short { key: key@, value: flag_value(flag) }),
{
    reveal(wire_bytes);
    out.push(STX);
    append_bytes(out, key.as_bytes());
    out.push(NUL);
    out.push(SOH);
    out.push(NUL);
    out.push(NUL);
    out.push(if flag { 1u8 } else { 0u8 });
    assert(le_bytes(flag_value(flag)).take(3) =~= seq![NUL, NUL, if flag { 1u8 } else { 0u8 }]);
    assert(final(out)@ =~= old(out)@ + wire_bytes(
        WireLine::Short { key: key@, value: flag_value(flag) },
    ));
}

/// Appends a tags block, numbering each tag by its position.
fn push_tags(out: &mut Vec<u8>, tags: &Vec<&str>)
    ensures
        final(out)@ == old(out)@ + tags_block_bytes(text_views(tags@)),
{
    let ghost all = text_views(tags@);
    let ghost indices = positions(all.len());
    out.push(NUL);
    out.push(0x74);
    out.push(0x61);
    out.push(0x67);
    out.push(0x73);
    out.push(NUL);
    let ghost start = out@;
    let mut k: usize = 0;
    assert(all.take(0) =~= Seq::<Seq<char>>::empty());
    while k < tags.len()
        invariant
            k <= tags@.len(),
            all == text_views(tags@),
            indices == positions(all.len()),
            out@ == start + tag_entries_bytes(indices, all.take(k as int)),
        decreases tags@.len() - k,
    {
        let ghost before = out@;
        out.push(SOH);
        push_decimal(out, k);
        out.push(NUL);
        append_bytes(out, tags[k].as_bytes());
        out.push(NUL);
        proof {
            let next = all.take(k + 1);
            assert(next.drop_last() == all.take(k as int));
            assert(next.last() == tags@[k as int]@);
            assert(indices[k as int] == decimal(k as nat));
            assert(out@ =~= before + tag_entry_bytes(indices[k as int], tags@[k as int]@));
            assert(out@ =~= start + tag_entries_bytes(indices, next));
        }
        k = k + 1;
    }
    out.push(BS);
    assert(all.take(k as int) == all);
    assert(final(out)@ =~= old(out)@ + tags_block_bytes(all));
}

/// Appends the field lines of one record, in their fixed order.
#[verifier::rlimit(30)]
fn push_record_lines(out: &mut Vec<u8>, s: &Shortcut)
    ensures
        final(out)@ == old(out)@ + wire_lines_bytes(record_wire_lines(s@)),
{
    let ghost mid = out@;
    let ghost mut items: Seq<WireLine> = Seq::empty();
    assert(out@ =~= mid + wire_lines_bytes(items)) by {
        reveal(wire_lines_bytes);
    }
    let ghost before = out@;
    push_numeric_line(out, "appid", s.app_id);
    proof {
        let l = WireLine::Long { key: "appid"@, value: s.app_id };
        lemma_wire_lines_step(before, out@, mid, items, l);
        items = items.push(l);
    }
    let ghost before = out@;
    push_text_line(out, "AppName", s.app_name);
    proof {
        let l = WireLine::Text { key: "AppName"@, value: s.app_name@ };
        lemma_wire_lines_step(before, out@, mid, items, l);
        items = items.push(l);
    }
    let ghost before = out@;
    push_text_line(out, "Exe", s.exe);
    proof {
        let l = WireLine::Text { key: "Exe"@, value: s.exe@ };
        lemma_wire_lines_step(before, out@, mid, items, l);
        items = items.push(l);
    }
    let ghost before = out@;
    push_text_line(out, "StartDir", s.start_dir);
    proof {
        let l = WireLine::Text { key: "StartDir"@, value: s.start_dir@ };
        lemma_wire_lines_step(before, out@, mid, items, l);
        items = items.push(l);
    }
    let ghost before = out@;
    push_text_line(out, "icon", s.icon);
    proof {
        let l = WireLine::Text { key: "icon"@, value: s.icon@ };
        lemma_wire_lines_step(before, out@, mid, items, l);
        items = items.push(l);
    }
    let ghost before = out@;
    push_text_line(out, "ShortcutPath", s.shortcut_path);
    proof {
        let l = WireLine::Text { key: "ShortcutPath"@, value: s.shortcut_path@ };
        lemma_wire_lines_step(before, out@, mid, items, l);
        items = items.push(l);
    }
    let ghost before = out@;
    push_text_line(out, "LaunchOptions", s.launch_options);
    proof {
        let l = WireLine::Text { key: "LaunchOptions"@, value: s.launch_options@ };
        lemma_wire_lines_step(before, out@, mid, items, l);
        items = items.push(l);
    }
    let ghost before = out@;
    push_numeric_line(out, "IsHidden", if s.is_hidden { 1 } else { 0 });
    proof {
        let l = WireLine::Long { key: "IsHidden"@, value: if s.is_hidden { 1 } else { 0 } };
        lemma_wire_lines_step(before, out@, mid, items, l);
        items = items.push(l);
    }
    let ghost before = out@;
    push_flag_line(out, "AllowDesktopConfig", s.allow_desktop_config);
    proof {
        let l = WireLine::Short {
            key: "AllowDesktopConfig"@,
            value: flag_value(s.allow_desktop_config),
        };
        lemma_wire_lines_step(before, out@, mid, items, l);
        items = items.push(l);
    }
    let ghost before = out@;
    push_flag_line(out, "AllowOverlay", s.allow_overlay);
    proof {
        let l = WireLine::Short { key: "AllowOverlay"@, value: flag_value(s.allow_overlay) };
        lemma_wire_lines_step(before, out@, mid, items, l);
        items = items.push(l);
    }
    let ghost before = out@;
    push_numeric_line(out, "openvr", s.open_vr);
    proof {
        let l = WireLine::Long { key: "openvr"@, value: s.open_vr };
        lemma_wire_lines_step(before, out@, mid, items, l);
        items = items.push(l);
    }
    let ghost before = out@;
    push_numeric_line(out, "Devkit", s.dev_kit);
    proof {
        let l = WireLine::Long { key: "Devkit"@, value: s.dev_kit };
        lemma_wire_lines_step(before, out@, mid, items, l);
        items = items.push(l);
    }
    let ghost before = out@;
    push_text_line(out, "DevkitGameID", s.dev_kit_game_id);
    proof {
        let l = WireLine::Text { key: "DevkitGameID"@, value: s.dev_kit_game_id@ };
        lemma_wire_lines_step(before, out@, mid, items, l);
        items = items.push(l);
    }
    let ghost before = out@;
    push_numeric_line(out, "DevkitOverrideAppID", s.dev_kit_overrite_app_id);
    proof {
        let l = WireLine::Long { key: "DevkitOverrideAppID"@, value: s.dev_kit_overrite_app_id };
        lemma_wire_lines_step(before, out@, mid, items, l);
        items = items.push(l);
    }
    let ghost before = out@;
    push_numeric_line(out, "LastPlayTime", s.last_play_time);
    proof {
        let l = WireLine::Long { key: "LastPlayTime"@, value: s.last_play_time };
        lemma_wire_lines_step(before, out@, mid, items, l);
        items = items.push(l);
        reveal(record_wire_lines);
        assert(items == record_wire_lines(s@));
    }
}

/// Appends the block of one record.
fn push_record(out: &mut Vec<u8>, s: &Shortcut)
    ensures
        final(out)@ == old(out)@ + record_bytes(s@),
{
    out.push(NUL);
    push_decimal(out, s.order);
    out.push(NUL);
    push_record_lines(out, s);
    push_tags(out, &s.tags);
    out.push(BS);
    reveal(record_bytes);
    assert(final(out)@ =~= old(out)@ + record_bytes(s@));
}

/// Writes shortcut records as bytes: the list header, one block per record (each with its
/// own order), and two closing `BS`.
pub fn shortcuts_to_bytes(shortcut: &Vec<Shortcut>) -> (r: Vec<u8>)
    ensures
        r@ == encode_shortcuts(shortcut_views(shortcut@)),
{
    let ghost all = shortcut_views(shortcut@);
    let mut result: Vec<u8> = Vec::new();
    result.push(NUL);
    result.push(0x73);
    result.push(0x68);
    result.push(0x6f);
    result.push(0x72);
    result.push(0x74);
    result.push(0x63);
    result.push(0x75);
    result.push(0x74);
    result.push(0x73);
    result.push(NUL);
    let ghost start = result@;
    let mut k: usize = 0;
    assert(all.take(0) =~= Seq::<crate::shortcut::ShortcutView>::empty());
    while k < shortcut.len()
        invariant
            k <= shortcut@.len(),
            all == shortcut_views(shortcut@),
            result@ == start + records_bytes(all.take(k as int)),
        decreases shortcut@.len() - k,
    {
        let ghost before = result@;
        push_record(&mut result, &shortcut[k]);
        proof {
            let next = all.take(k + 1);
            assert(next.drop_last() == all.take(k as int));
            assert(next.last() == shortcut@[k as int]@);
            assert(result@ =~= start + records_bytes(next));
        }
        k = k + 1;
    }
    result.push(BS);
    result.push(BS);
    assert(all.take(k as int) == all);
    assert(result@ =~= encode_shortcuts(all));
    result
}

} // verus!
