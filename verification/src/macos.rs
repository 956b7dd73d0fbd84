//! macOS extraction: what `UCKeyTranslate` gives for each W3C key under each probed modifier
//! state becomes single-press alternatives and dead-key sources; what it composes for each
//! dead key followed by every other key becomes two-press alternatives.
use vstd::prelude::*;

use crate::linux::composed_shaped;
use crate::model::{
    all_known, clone_strings, dead_key_view, is_known_modifier, layout_valid, lemma_append_lists,
    lemma_append_ok, lemma_dead_key_view_valid, lists, lemma_mappings_ok_no_error, lemma_single_view_valid, mappings_ok,
    opt_str_view, single_view, Keystroke, KeystrokeView, LayoutFile, LayoutFileView,
    LayoutMetadata, LayoutMetadataView,
};
use crate::strmap::{assoc_append, keys_distinct, StrMap};
use crate::text::{chars_to_string, slice_chars, starts_with, starts_with_str, str_chars};
use crate::w3c_keys::{w3c_keys, w3c_table, W3cKeyView};

verus! {

/// The four modifier states probed on macOS.
#[derive(Debug, Clone, Copy, PartialEq, Eq)]
pub enum ModState {
    Unmodified,
    Shift,
    Option,
    ShiftOption,
}

impl ModState {
    /// The Carbon `modifierKeyState` bits for `UCKeyTranslate`: bit 1 is `shiftKey`, bit 3 is
    /// `optionKey`.
    pub fn carbon_modifier_mask(self) -> (r: u32)
        ensures
            r == match self {
                ModState::Unmodified => 0u32,
                ModState::Shift => 2u32,
                ModState::Option => 8u32,
                ModState::ShiftOption => 10u32,
            },
    {
        assert((1u32 << 1u32) == 2u32) by (bit_vector);
        assert((1u32 << 3u32) == 8u32) by (bit_vector);
        assert(((1u32 << 1u32) | (1u32 << 3u32)) == 10u32) by (bit_vector);
        match self {
            ModState::Unmodified => 0,
            ModState::Shift => 1 << 1,
            ModState::Option => 1 << 3,
            ModState::ShiftOption => (1 << 1) | (1 << 3),
        }
    }

    /// The W3C modifiers of the state; macOS Option is the W3C `Alt`.
    pub fn w3c_modifiers(self) -> (r: Vec<String>)
        ensures
            r.deep_view() == match self {
                ModState::Unmodified => Seq::<Seq<char>>::empty(),
                ModState::Shift => seq!["Shift"@],
                ModState::Option => seq!["Alt"@],
                ModState::ShiftOption => seq!["Shift"@, "Alt"@],
            },
    {
        let mut r: Vec<String> = Vec::new();
        match self {
            ModState::Unmodified => {},
            ModState::Shift => {
                r.push("Shift".to_owned());
            },
            ModState::Option => {
                r.push("Alt".to_owned());
            },
            ModState::ShiftOption => {
                r.push("Shift".to_owned());
                r.push("Alt".to_owned());
            },
        }
        assert(r.deep_view() =~= match self {
            ModState::Unmodified => Seq::<Seq<char>>::empty(),
            ModState::Shift => seq!["Shift"@],
            ModState::Option => seq!["Alt"@],
            ModState::ShiftOption => seq!["Shift"@, "Alt"@],
        });
        r
    }
}

/// The probed states, in order.
pub open spec fn mod_states() -> Seq<ModState> {
    seq![ModState::Unmodified, ModState::Shift, ModState::Option, ModState::ShiftOption]
}

/// The W3C modifiers of a state.
pub open spec fn state_modifiers(m: ModState) -> Seq<Seq<char>> {
    match m {
        ModState::Unmodified => Seq::<Seq<char>>::empty(),
        ModState::Shift => seq!["Shift"@],
        ModState::Option => seq!["Alt"@],
        ModState::ShiftOption => seq!["Shift"@, "Alt"@],
    }
}

/// The probed states, in order.
pub fn probed_states() -> (r: Vec<ModState>)
    ensures
        r@ == mod_states(),
{
    let mut r: Vec<ModState> = Vec::new();
    r.push(ModState::Unmodified);
    r.push(ModState::Shift);
    r.push(ModState::Option);
    r.push(ModState::ShiftOption);
    assert(r@ =~= mod_states());
    r
}

/// What `UCKeyTranslate` gives for one key under one state: the text it produces, if any, and
/// whether the key is a dead key there.
#[derive(Debug, Clone, PartialEq, Eq)]
pub struct Translation {
    pub text: Option<String>,
    pub dead: bool,
}

impl DeepView for Translation {
    type V = (Option<Seq<char>>, bool);

    open spec fn deep_view(&self) -> (Option<Seq<char>>, bool) {
        (self.text.deep_view(), self.dead)
    }
}

/// The first stage of a macOS extraction: the single-press alternatives, and the dead keys
/// found (macOS keycode, state) in the order found.
#[derive(Debug)]
pub struct MacStage {
    pub mappings: StrMap<Vec<Keystroke>>,
    pub dead_sources: Vec<(u32, ModState)>,
}

pub type MacAcc = (Seq<(Seq<char>, Seq<KeystrokeView>)>, Seq<(u32, ModState)>);

/// One key (`code`, macOS keycode `kc`) under one state: a non-empty text gets the single
/// press, a dead key is recorded.
pub open spec fn state_step(acc: MacAcc, code: Seq<char>, kc: u32, m: ModState, tr: (Option<Seq<char>>, bool)) -> MacAcc {
    let a = match tr.0 {
        Some(out) => if out.len() > 0 {
            assoc_append(acc.0, out, single_view(code, state_modifiers(m)))
        } else {
            acc.0
        },
        None => acc.0,
    };
    (a, if tr.1 { acc.1.push((kc, m)) } else { acc.1 })
}

pub open spec fn states_fold(acc: MacAcc, code: Seq<char>, kc: u32, trs: Seq<(Option<Seq<char>>, bool)>, n: nat) -> MacAcc
    decreases n,
{
    if n == 0 {
        acc
    } else {
        state_step(states_fold(acc, code, kc, trs, (n - 1) as nat), code, kc, mod_states()[n - 1], trs[n - 1])
    }
}

pub open spec fn mac_fold(keys: Seq<Seq<(Option<Seq<char>>, bool)>>, t: Seq<W3cKeyView>) -> MacAcc
    decreases t.len(),
{
    if t.len() == 0 {
        (seq![], seq![])
    } else {
        let i = t.len() - 1;
        states_fold(mac_fold(keys, t.drop_last()), t[i].code, t[i].macos_keycode, keys[i], 4)
    }
}

/// One list of four translations (one per probed state) per W3C key.
pub open spec fn translations_shaped(keys: Seq<Seq<(Option<Seq<char>>, bool)>>) -> bool {
    keys.len() == w3c_table().len() && forall|i: int| 0 <= i < keys.len() ==> (#[trigger] keys[i]).len() == 4
}

/// The single presses and dead keys of a keyboard layout, from what `UCKeyTranslate` gives for
/// each W3C key under each probed state.
pub fn mac_first_stage(keys: &Vec<Vec<Translation>>) -> (st: MacStage)
    requires
        translations_shaped(keys.deep_view()),
    ensures
        (st.mappings.pairs(), st.dead_sources@) == mac_fold(keys.deep_view(), w3c_table()),
{
    let table = w3c_keys();
    let states = probed_states();
    let ghost t = w3c_table();
    let ghost kv = keys.deep_view();
    let mut mappings: StrMap<Vec<Keystroke>> = StrMap::new();
    let mut dead_sources: Vec<(u32, ModState)> = Vec::new();
    assert(t.take(0) =~= Seq::<W3cKeyView>::empty());
    for i in 0..table.len()
        invariant
            table.deep_view() == t,
            t == w3c_table(),
            states@ == mod_states(),
            kv == keys.deep_view(),
            translations_shaped(kv),
            (mappings.pairs(), dead_sources@) == mac_fold(kv, t.take(i as int)),
    {
        assert(t.take(i + 1).drop_last() =~= t.take(i as int));
        assert(t.take(i + 1)[i as int] == t[i as int]);
        assert(table[i as int].deep_view() == t[i as int]);
        assert(kv[i as int] == keys[i as int].deep_view());
        let code = table[i].code;
        let kc = table[i].macos_keycode;
        let trs = &keys[i];
        let ghost before = (mappings.pairs(), dead_sources@);
        for j in 0..4
            invariant
                trs.deep_view() == kv[i as int],
                kv[i as int].len() == 4,
                states@ == mod_states(),
                code@ == t[i as int].code,
                kc == t[i as int].macos_keycode,
                (mappings.pairs(), dead_sources@) == states_fold(before, code@, kc, kv[i as int], j as nat),
        {
            assert(kv[i as int][j as int] == trs[j as int].deep_view());
            let m = states[j];
            match &trs[j].text {
                Some(out) => {
                    if !out.as_str().is_empty() {
                        let ks = Keystroke::single(code, m.w3c_modifiers());
                        mappings.push_to(out.clone(), ks);
                    }
                },
                None => {},
            }
            if trs[j].dead {
                dead_sources.push((kc, m));
            }
        }
    }
    assert(t.take(table.len() as int) =~= t);
    MacStage { mappings, dead_sources }
}

/// Position of the first table row with macOS keycode `kc`, or the table length.
pub open spec fn macos_pos(t: Seq<W3cKeyView>, kc: u32) -> nat
    decreases t.len(),
{
    if t.len() == 0 || t[0].macos_keycode == kc {
        0
    } else {
        1 + macos_pos(t.drop_first(), kc)
    }
}

/// The compositions of one dead key (`kc` under `m`, W3C code `dcode`) with the other keys of
/// `t` whose composed text is not empty.
pub open spec fn mac_compose_fold(
    ms: Seq<(Seq<char>, Seq<KeystrokeView>)>,
    kc: u32,
    m: ModState,
    dcode: Seq<char>,
    outs: Seq<Option<Seq<char>>>,
    t: Seq<W3cKeyView>,
) -> Seq<(Seq<char>, Seq<KeystrokeView>)>
    decreases t.len(),
{
    if t.len() == 0 {
        ms
    } else {
        let j = t.len() - 1;
        let r = mac_compose_fold(ms, kc, m, dcode, outs, t.drop_last());
        if t[j].macos_keycode == kc {
            r
        } else {
            match outs[j] {
                Some(o) => if o.len() > 0 {
                    assoc_append(r, o, dead_key_view(dcode, state_modifiers(m), t[j].code, seq![]))
                } else {
                    r
                },
                None => r,
            }
        }
    }
}

pub open spec fn mac_compositions_fold(
    ms: Seq<(Seq<char>, Seq<KeystrokeView>)>,
    deads: Seq<(u32, ModState)>,
    outs: Seq<Seq<Option<Seq<char>>>>,
) -> Seq<(Seq<char>, Seq<KeystrokeView>)>
    decreases deads.len(),
{
    if deads.len() == 0 {
        ms
    } else {
        let i = deads.len() - 1;
        let r = mac_compositions_fold(ms, deads.drop_last(), outs);
        let p = macos_pos(w3c_table(), deads[i].0);
        if p < w3c_table().len() {
            mac_compose_fold(r, deads[i].0, deads[i].1, w3c_table()[p as int].code, outs[i], w3c_table())
        } else {
            r
        }
    }
}

/// The macOS layout from its first stage and the texts composed for each of its dead keys
/// (`composed[i][j]`: dead key `i`, then W3C key `j` under the same state).
pub fn mac_layout(
    layout: &str,
    variant: Option<&str>,
    display_name: Option<String>,
    extracted_on: String,
    stage: MacStage,
    composed: &Vec<Vec<Option<String>>>,
) -> (l: LayoutFile)
    requires
        composed_shaped(composed.deep_view(), stage.dead_sources@.len()),
    ensures
        l.mappings.pairs() == mac_compositions_fold(stage.mappings.pairs(), stage.dead_sources@, composed.deep_view()),
        l@.metadata.platform == "macos"@,
        l@.metadata.layout_name == layout@,
        l@.metadata.layout_variant == opt_str_view(variant),
        l@.metadata.display_name == display_name.deep_view(),
        l@.metadata.extracted_on == extracted_on@,
{
    let table = w3c_keys();
    let ghost t = w3c_table();
    let ghost ov = composed.deep_view();
    let MacStage { mut mappings, dead_sources } = stage;
    let ghost ms0 = mappings.pairs();
    let ghost dv = dead_sources@;
    assert(dv.take(0) =~= Seq::<(u32, ModState)>::empty());
    for i in 0..dead_sources.len()
        invariant
            table.deep_view() == t,
            t == w3c_table(),
            dv == dead_sources@,
            ov == composed.deep_view(),
            crate::linux::composed_shaped(ov, dv.len()),
            mappings.pairs() == mac_compositions_fold(ms0, dv.take(i as int), ov),
    {
        assert(dv.take(i + 1).drop_last() =~= dv.take(i as int));
        assert(dv.take(i + 1)[i as int] == dv[i as int]);
        let kc = dead_sources[i].0;
        let m = dead_sources[i].1;
        let mut p: usize = 0;
        assert(t.skip(0) =~= t);
        while p < table.len() && table[p].macos_keycode != kc
            invariant
                table.deep_view() == t,
                p <= t.len(),
                macos_pos(t, kc) == p + macos_pos(t.skip(p as int), kc),
            decreases t.len() - p,
        {
            assert(table[p as int].deep_view() == t[p as int]);
            assert(t.skip(p as int).drop_first() =~= t.skip(p + 1));
            p += 1;
        }
        if p < table.len() {
            assert(table[p as int].deep_view() == t[p as int]);
            assert(t.skip(p as int)[0] == t[p as int]);
            let dcode = table[p].code;
            let dmods = m.w3c_modifiers();
            let ghost before = mappings.pairs();
            assert(ov[i as int] == composed[i as int].deep_view());
            let outs = &composed[i];
            let ghost outv = ov[i as int];
            assert(t.take(0) =~= Seq::<W3cKeyView>::empty());
            for j in 0..table.len()
                invariant
                    table.deep_view() == t,
                    t == w3c_table(),
                    outs.deep_view() == outv,
                    outv.len() == t.len(),
                    dcode@ == t[macos_pos(t, kc) as int].code,
                    dmods.deep_view() == state_modifiers(m),
                    mappings.pairs() == mac_compose_fold(before, kc, m, dcode@, outv, t.take(j as int)),
            {
                assert(t.take(j + 1).drop_last() =~= t.take(j as int));
                assert(t.take(j + 1)[j as int] == t[j as int]);
                assert(table[j as int].deep_view() == t[j as int]);
                assert(outv[j as int] == outs[j as int].deep_view());
                if table[j].macos_keycode != kc {
                    match &outs[j] {
                        Some(o) => {
                            if !o.as_str().is_empty() {
                                let no_mods: Vec<String> = Vec::new();
                                assert(no_mods.deep_view() =~= Seq::<Seq<char>>::empty());
                                let ks = Keystroke::dead_key(dcode, clone_strings(&dmods), table[j].code, no_mods);
                                assert(ks.deep_view().sequence =~= dead_key_view(dcode@, state_modifiers(m), t[j as int].code, seq![]).sequence);
                                mappings.push_to(o.clone(), ks);
                            }
                        },
                        None => {},
                    }
                }
            }
            assert(t.take(t.len() as int) =~= t);
        }
    }
    assert(dv.take(dv.len() as int) =~= dv);
    LayoutFile {
        metadata: LayoutMetadata {
            platform: "macos".to_owned(),
            layout_name: layout.to_owned(),
            layout_variant: match variant {
                Some(v) => Some(v.to_owned()),
                None => None,
            },
            display_name,
            extracted_on,
        },
        mappings,
    }
}

/// The file stem of an input source: its ID without the `com.apple.keylayout.` prefix.
pub open spec fn source_stem(id: Seq<char>) -> Seq<char> {
    if starts_with(id, "com.apple.keylayout."@) {
        id.skip("com.apple.keylayout."@.len() as int)
    } else {
        id
    }
}

/// The file stem of an input source ID, e.g. `US` for `com.apple.keylayout.US`.
pub fn layout_stem(source_id: &str) -> (r: String)
    ensures
        r@ == source_stem(source_id@),
{
    let cs = str_chars(source_id);
    let prefix = str_chars("com.apple.keylayout.");
    if starts_with_str(cs.as_slice(), "com.apple.keylayout.") {
        let rest = slice_chars(cs.as_slice(), prefix.len(), cs.len());
        assert(rest@ =~= source_id@.skip("com.apple.keylayout."@.len() as int));
        chars_to_string(rest.as_slice())
    } else {
        source_id.to_owned()
    }
}

/// A first stage so far: valid mappings under distinct targets.
pub open spec fn mac_acc_ok(acc: MacAcc) -> bool {
    mappings_ok(acc.0) && keys_distinct(acc.0)
}

proof fn lemma_state_modifiers_known(m: ModState)
    ensures
        all_known(state_modifiers(m)),
{
    let ms = state_modifiers(m);
    assert forall|i: int| 0 <= i < ms.len() implies is_known_modifier(#[trigger] ms[i]) by {
        if m == ModState::Option || (m == ModState::ShiftOption && i == 1) {
            assert(ms[i] == "Alt"@);
        } else {
            assert(ms[i] == "Shift"@);
        }
    }
}

proof fn lemma_states_fold_ok(acc: MacAcc, code: Seq<char>, kc: u32, trs: Seq<(Option<Seq<char>>, bool)>, n: nat)
    requires
        mac_acc_ok(acc),
        n <= 4,
    ensures
        mac_acc_ok(states_fold(acc, code, kc, trs, n)),
    decreases n,
{
    if n > 0 {
        lemma_states_fold_ok(acc, code, kc, trs, (n - 1) as nat);
        let a = states_fold(acc, code, kc, trs, (n - 1) as nat);
        let m = mod_states()[n - 1];
        if let Some(out) = trs[n - 1].0 {
            if out.len() > 0 {
                lemma_state_modifiers_known(m);
                lemma_single_view_valid(code, state_modifiers(m));
                lemma_append_ok(a.0, out, single_view(code, state_modifiers(m)));
            }
        }
    }
}

proof fn lemma_mac_fold_ok(keys: Seq<Seq<(Option<Seq<char>>, bool)>>, t: Seq<W3cKeyView>)
    ensures
        mac_acc_ok(mac_fold(keys, t)),
    decreases t.len(),
{
    if t.len() > 0 {
        let i = t.len() - 1;
        lemma_mac_fold_ok(keys, t.drop_last());
        lemma_states_fold_ok(mac_fold(keys, t.drop_last()), t[i].code, t[i].macos_keycode, keys[i], 4);
    } else {
        assert(keys_distinct(Seq::<(Seq<char>, Seq<KeystrokeView>)>::empty()));
    }
}

proof fn lemma_mac_compose_fold_ok(
    ms: Seq<(Seq<char>, Seq<KeystrokeView>)>,
    kc: u32,
    m: ModState,
    dcode: Seq<char>,
    outs: Seq<Option<Seq<char>>>,
    t: Seq<W3cKeyView>,
)
    requires
        mappings_ok(ms),
        keys_distinct(ms),
    ensures
        mappings_ok(mac_compose_fold(ms, kc, m, dcode, outs, t)),
        keys_distinct(mac_compose_fold(ms, kc, m, dcode, outs, t)),
    decreases t.len(),
{
    if t.len() > 0 {
        let j = t.len() - 1;
        lemma_mac_compose_fold_ok(ms, kc, m, dcode, outs, t.drop_last());
        let r = mac_compose_fold(ms, kc, m, dcode, outs, t.drop_last());
        if t[j].macos_keycode != kc {
            if let Some(o) = outs[j] {
                if o.len() > 0 {
                    lemma_state_modifiers_known(m);
                    lemma_dead_key_view_valid(dcode, state_modifiers(m), t[j].code, seq![]);
                    lemma_append_ok(r, o, dead_key_view(dcode, state_modifiers(m), t[j].code, seq![]));
                }
            }
        }
    }
}

proof fn lemma_mac_compositions_fold_ok(
    ms: Seq<(Seq<char>, Seq<KeystrokeView>)>,
    deads: Seq<(u32, ModState)>,
    outs: Seq<Seq<Option<Seq<char>>>>,
)
    requires
        mappings_ok(ms),
        keys_distinct(ms),
    ensures
        mappings_ok(mac_compositions_fold(ms, deads, outs)),
        keys_distinct(mac_compositions_fold(ms, deads, outs)),
    decreases deads.len(),
{
    if deads.len() > 0 {
        let i = deads.len() - 1;
        lemma_mac_compositions_fold_ok(ms, deads.drop_last(), outs);
        let p = macos_pos(w3c_table(), deads[i].0);
        if p < w3c_table().len() {
            lemma_mac_compose_fold_ok(
                mac_compositions_fold(ms, deads.drop_last(), outs),
                deads[i].0,
                deads[i].1,
                w3c_table()[p as int].code,
                outs[i],
                w3c_table(),
            );
        }
    }
}

/// Whatever `UCKeyTranslate` gives and composes, the macOS layout built from it passes layout
/// validation (given a non-empty layout name and extraction time): every target and
/// alternatives list is non-empty, targets are distinct, and every modifier is a W3C modifier.
pub proof fn lemma_mac_layout_valid(
    keys: Seq<Seq<(Option<Seq<char>>, bool)>>,
    composed: Seq<Seq<Option<Seq<char>>>>,
    layout: Seq<char>,
    variant: Option<Seq<char>>,
    display_name: Option<Seq<char>>,
    extracted_on: Seq<char>,
)
    requires
        layout.len() > 0,
        extracted_on.len() > 0,
    ensures
        ({
            let st = mac_fold(keys, w3c_table());
            let ms = mac_compositions_fold(st.0, st.1, composed);
            &&& keys_distinct(ms)
            &&& layout_valid(
                LayoutFileView {
                    metadata: LayoutMetadataView {
                        platform: "macos"@,
                        layout_name: layout,
                        layout_variant: variant,
                        display_name,
                        extracted_on,
                    },
                    mappings: ms,
                },
            )
        }),
{
    reveal_strlit("macos");
    let st = mac_fold(keys, w3c_table());
    lemma_mac_fold_ok(keys, w3c_table());
    lemma_mac_compositions_fold_ok(st.0, st.1, composed);
    lemma_mappings_ok_no_error(mac_compositions_fold(st.0, st.1, composed));
}

/// Under probed state `s`, the translation of the key `code` is the non-empty text `target`,
/// and `ks` presses the key under the state's modifiers.
pub open spec fn tr_gives(trs: Seq<(Option<Seq<char>>, bool)>, s: int, code: Seq<char>, target: Seq<char>, ks: KeystrokeView) -> bool {
    &&& 0 <= s < 4
    &&& trs[s].0 == Some(target)
    &&& target.len() > 0
    &&& ks == single_view(code, state_modifiers(mod_states()[s]))
}

/// Under probed state `s`, the key with macOS keycode `kc` is a dead key, and `d` is that key
/// under that state.
pub open spec fn tr_dead(trs: Seq<(Option<Seq<char>>, bool)>, s: int, kc: u32, d: (u32, ModState)) -> bool {
    &&& 0 <= s < 4
    &&& trs[s].1
    &&& d == (kc, mod_states()[s])
}

pub open spec fn state_gives(keys: Seq<Seq<(Option<Seq<char>>, bool)>>, t: Seq<W3cKeyView>, i: int, s: int, target: Seq<char>, ks: KeystrokeView) -> bool {
    0 <= i < t.len() && tr_gives(keys[i], s, t[i].code, target, ks)
}

pub open spec fn state_dead(keys: Seq<Seq<(Option<Seq<char>>, bool)>>, t: Seq<W3cKeyView>, i: int, s: int, d: (u32, ModState)) -> bool {
    0 <= i < t.len() && tr_dead(keys[i], s, t[i].macos_keycode, d)
}

pub open spec fn some_state_gives(keys: Seq<Seq<(Option<Seq<char>>, bool)>>, t: Seq<W3cKeyView>, target: Seq<char>, ks: KeystrokeView) -> bool {
    exists|i: int, s: int| state_gives(keys, t, i, s, target, ks)
}

pub open spec fn some_state_dead(keys: Seq<Seq<(Option<Seq<char>>, bool)>>, t: Seq<W3cKeyView>, d: (u32, ModState)) -> bool {
    exists|i: int, s: int| state_dead(keys, t, i, s, d)
}

/// What the first stage over `t` lists and records comes from the translations of the keys of
/// `t` under the probed states.
pub open spec fn mac_sourced(keys: Seq<Seq<(Option<Seq<char>>, bool)>>, t: Seq<W3cKeyView>) -> bool {
    let st = mac_fold(keys, t);
    &&& forall|target: Seq<char>, ks: KeystrokeView| #[trigger] lists(st.0, target, ks) ==> some_state_gives(keys, t, target, ks)
    &&& forall|p: int| 0 <= p < st.1.len() ==> some_state_dead(keys, t, #[trigger] st.1[p])
}

proof fn lemma_states_fold_from(
    acc: MacAcc,
    code: Seq<char>,
    kc: u32,
    trs: Seq<(Option<Seq<char>>, bool)>,
    n: nat,
    target: Seq<char>,
    ks: KeystrokeView,
)
    requires
        mac_acc_ok(acc),
        n <= 4,
        lists(states_fold(acc, code, kc, trs, n).0, target, ks),
    ensures
        lists(acc.0, target, ks) || exists|s: int| s < n && tr_gives(trs, s, code, target, ks),
    decreases n,
{
    if n > 0 {
        let a = states_fold(acc, code, kc, trs, (n - 1) as nat);
        lemma_states_fold_ok(acc, code, kc, trs, (n - 1) as nat);
        let s = n - 1;
        let mods = state_modifiers(mod_states()[s]);
        let from_pre = match trs[s].0 {
            Some(out) => if out.len() > 0 {
                lemma_append_lists(a.0, out, single_view(code, mods), target, ks);
                lists(a.0, target, ks)
            } else {
                true
            },
            None => true,
        };
        if from_pre {
            lemma_states_fold_from(acc, code, kc, trs, (n - 1) as nat, target, ks);
        } else {
            assert(tr_gives(trs, s, code, target, ks));
        }
    }
}

proof fn lemma_states_fold_deads(acc: MacAcc, code: Seq<char>, kc: u32, trs: Seq<(Option<Seq<char>>, bool)>, n: nat, p: int)
    requires
        n <= 4,
        0 <= p < states_fold(acc, code, kc, trs, n).1.len(),
    ensures
        (p < acc.1.len() && states_fold(acc, code, kc, trs, n).1[p] == acc.1[p])
            || exists|s: int| s < n && tr_dead(trs, s, kc, states_fold(acc, code, kc, trs, n).1[p]),
    decreases n,
{
    if n > 0 {
        let a = states_fold(acc, code, kc, trs, (n - 1) as nat);
        let r = states_fold(acc, code, kc, trs, n);
        if p < a.1.len() {
            assert(r.1[p] == a.1[p]);
            lemma_states_fold_deads(acc, code, kc, trs, (n - 1) as nat, p);
        } else {
            assert(tr_dead(trs, n - 1, kc, r.1[p]));
        }
    }
}

proof fn lemma_mac_sourced(keys: Seq<Seq<(Option<Seq<char>>, bool)>>, t: Seq<W3cKeyView>)
    ensures
        mac_sourced(keys, t),
    decreases t.len(),
{
    let st = mac_fold(keys, t);
    if t.len() == 0 {
        assert forall|target: Seq<char>, ks: KeystrokeView| #[trigger] lists(st.0, target, ks)
            implies some_state_gives(keys, t, target, ks) by {
            assert(crate::strmap::assoc_get(st.0, target) is None);
        }
        assert(mac_sourced(keys, t));
    } else {
        let pre = t.drop_last();
        let i = t.len() - 1;
        let a = mac_fold(keys, pre);
        lemma_mac_sourced(keys, pre);
        lemma_mac_fold_ok(keys, pre);
        assert forall|target: Seq<char>, ks: KeystrokeView| #[trigger] lists(st.0, target, ks)
            implies some_state_gives(keys, t, target, ks) by {
            lemma_states_fold_from(a, t[i].code, t[i].macos_keycode, keys[i], 4, target, ks);
            if lists(a.0, target, ks) {
                let (k, s) = choose|k: int, s: int| state_gives(keys, pre, k, s, target, ks);
                assert(pre[k] == t[k]);
                assert(state_gives(keys, t, k, s, target, ks));
            } else {
                let s = choose|s: int| s < 4 && tr_gives(keys[i], s, t[i].code, target, ks);
                assert(state_gives(keys, t, i, s, target, ks));
            }
        }
        assert forall|p: int| 0 <= p < st.1.len() implies some_state_dead(keys, t, #[trigger] st.1[p]) by {
            lemma_states_fold_deads(a, t[i].code, t[i].macos_keycode, keys[i], 4, p);
            if p < a.1.len() && st.1[p] == a.1[p] {
                let (k, s) = choose|k: int, s: int| state_dead(keys, pre, k, s, a.1[p]);
                assert(pre[k] == t[k]);
                assert(state_dead(keys, t, k, s, st.1[p]));
            } else {
                let s = choose|s: int| s < 4 && tr_dead(keys[i], s, t[i].macos_keycode, st.1[p]);
                assert(state_dead(keys, t, i, s, st.1[p]));
            }
        }
        assert(mac_sourced(keys, t));
    }
}

/// Key `j` of `t` is another key than `kc`, what the dead key composes with it is the non-empty
/// `target`, and `ks` presses the dead key (code `dcode`, under state `m`), then key `j`.
pub open spec fn mac_dead_out(
    outs: Seq<Option<Seq<char>>>,
    t: Seq<W3cKeyView>,
    j: int,
    kc: u32,
    m: ModState,
    dcode: Seq<char>,
    target: Seq<char>,
    ks: KeystrokeView,
) -> bool {
    &&& 0 <= j < t.len()
    &&& t[j].macos_keycode != kc
    &&& outs[j] == Some(target)
    &&& target.len() > 0
    &&& ks == dead_key_view(dcode, state_modifiers(m), t[j].code, seq![])
}

/// Dead key `p` of `deads` is a W3C key, and with key `j` it composes `target`, typed by `ks`.
pub open spec fn mac_comp_gives(
    deads: Seq<(u32, ModState)>,
    outs: Seq<Seq<Option<Seq<char>>>>,
    p: int,
    j: int,
    target: Seq<char>,
    ks: KeystrokeView,
) -> bool {
    let t = w3c_table();
    &&& 0 <= p < deads.len()
    &&& macos_pos(t, deads[p].0) < t.len()
    &&& mac_dead_out(outs[p], t, j, deads[p].0, deads[p].1, t[macos_pos(t, deads[p].0) as int].code, target, ks)
}

proof fn lemma_mac_compose_distinct(
    ms: Seq<(Seq<char>, Seq<KeystrokeView>)>,
    kc: u32,
    m: ModState,
    dcode: Seq<char>,
    outs: Seq<Option<Seq<char>>>,
    t: Seq<W3cKeyView>,
)
    requires
        keys_distinct(ms),
    ensures
        keys_distinct(mac_compose_fold(ms, kc, m, dcode, outs, t)),
    decreases t.len(),
{
    if t.len() > 0 {
        let j = t.len() - 1;
        lemma_mac_compose_distinct(ms, kc, m, dcode, outs, t.drop_last());
        let r = mac_compose_fold(ms, kc, m, dcode, outs, t.drop_last());
        if let Some(o) = outs[j] {
            let x = dead_key_view(dcode, state_modifiers(m), t[j].code, seq![]);
            lemma_append_lists(r, o, x, o, x);
        }
    }
}

proof fn lemma_mac_compositions_distinct(ms: Seq<(Seq<char>, Seq<KeystrokeView>)>, deads: Seq<(u32, ModState)>, outs: Seq<Seq<Option<Seq<char>>>>)
    requires
        keys_distinct(ms),
    ensures
        keys_distinct(mac_compositions_fold(ms, deads, outs)),
    decreases deads.len(),
{
    if deads.len() > 0 {
        let i = deads.len() - 1;
        lemma_mac_compositions_distinct(ms, deads.drop_last(), outs);
        let p = macos_pos(w3c_table(), deads[i].0);
        if p < w3c_table().len() {
            lemma_mac_compose_distinct(
                mac_compositions_fold(ms, deads.drop_last(), outs),
                deads[i].0,
                deads[i].1,
                w3c_table()[p as int].code,
                outs[i],
                w3c_table(),
            );
        }
    }
}

proof fn lemma_mac_compose_from(
    ms: Seq<(Seq<char>, Seq<KeystrokeView>)>,
    kc: u32,
    m: ModState,
    dcode: Seq<char>,
    outs: Seq<Option<Seq<char>>>,
    t: Seq<W3cKeyView>,
    target: Seq<char>,
    ks: KeystrokeView,
)
    requires
        keys_distinct(ms),
        lists(mac_compose_fold(ms, kc, m, dcode, outs, t), target, ks),
    ensures
        lists(ms, target, ks) || exists|j: int| mac_dead_out(outs, t, j, kc, m, dcode, target, ks),
    decreases t.len(),
{
    if t.len() > 0 {
        let j = t.len() - 1;
        let pre = t.drop_last();
        let r = mac_compose_fold(ms, kc, m, dcode, outs, pre);
        lemma_mac_compose_distinct(ms, kc, m, dcode, outs, pre);
        let from_pre = if t[j].macos_keycode != kc && outs[j] is Some && outs[j]->0.len() > 0 {
            lemma_append_lists(r, outs[j]->0, dead_key_view(dcode, state_modifiers(m), t[j].code, seq![]), target, ks);
            lists(r, target, ks)
        } else {
            true
        };
        if from_pre {
            lemma_mac_compose_from(ms, kc, m, dcode, outs, pre, target, ks);
            if !lists(ms, target, ks) {
                let k = choose|k: int| mac_dead_out(outs, pre, k, kc, m, dcode, target, ks);
                assert(pre[k] == t[k]);
                assert(mac_dead_out(outs, t, k, kc, m, dcode, target, ks));
            }
        } else {
            assert(mac_dead_out(outs, t, j, kc, m, dcode, target, ks));
        }
    }
}

proof fn lemma_mac_compositions_from(
    ms: Seq<(Seq<char>, Seq<KeystrokeView>)>,
    deads: Seq<(u32, ModState)>,
    outs: Seq<Seq<Option<Seq<char>>>>,
    target: Seq<char>,
    ks: KeystrokeView,
)
    requires
        keys_distinct(ms),
        lists(mac_compositions_fold(ms, deads, outs), target, ks),
    ensures
        lists(ms, target, ks) || exists|p: int, j: int| mac_comp_gives(deads, outs, p, j, target, ks),
    decreases deads.len(),
{
    if deads.len() > 0 {
        let i = deads.len() - 1;
        let pre = deads.drop_last();
        let r = mac_compositions_fold(ms, pre, outs);
        lemma_mac_compositions_distinct(ms, pre, outs);
        let t = w3c_table();
        let pos = macos_pos(t, deads[i].0);
        let from_pre = if pos < t.len() {
            lemma_mac_compose_from(r, deads[i].0, deads[i].1, t[pos as int].code, outs[i], t, target, ks);
            lists(r, target, ks)
        } else {
            true
        };
        if from_pre {
            lemma_mac_compositions_from(ms, pre, outs, target, ks);
            if !lists(ms, target, ks) {
                let (p, j) = choose|p: int, j: int| mac_comp_gives(pre, outs, p, j, target, ks);
                assert(pre[p] == deads[p]);
                assert(mac_comp_gives(deads, outs, p, j, target, ks));
            }
        } else {
            let j = choose|j: int| mac_dead_out(outs[i], t, j, deads[i].0, deads[i].1, t[pos as int].code, target, ks);
            assert(mac_comp_gives(deads, outs, i, j, target, ks));
        }
    }
}

/// Every alternative the macOS layout lists for a target types it: a key whose translation
/// under a probed state is the target, pressed under that state's modifiers; or a dead key
/// found under a probed state, then another key with which it composed the target.
pub proof fn lemma_mac_listed_types(
    keys: Seq<Seq<(Option<Seq<char>>, bool)>>,
    composed: Seq<Seq<Option<Seq<char>>>>,
    target: Seq<char>,
    ks: KeystrokeView,
)
    requires
        lists(mac_compositions_fold(mac_fold(keys, w3c_table()).0, mac_fold(keys, w3c_table()).1, composed), target, ks),
    ensures
        some_state_gives(keys, w3c_table(), target, ks) || exists|p: int, j: int|
            mac_comp_gives(mac_fold(keys, w3c_table()).1, composed, p, j, target, ks)
                && some_state_dead(keys, w3c_table(), mac_fold(keys, w3c_table()).1[p]),
{
    let st = mac_fold(keys, w3c_table());
    lemma_mac_fold_ok(keys, w3c_table());
    lemma_mac_sourced(keys, w3c_table());
    lemma_mac_compositions_from(st.0, st.1, composed, target, ks);
    if !lists(st.0, target, ks) {
        let (p, j) = choose|p: int, j: int| mac_comp_gives(st.1, composed, p, j, target, ks);
        assert(some_state_dead(keys, w3c_table(), st.1[p]));
    }
}

proof fn lemma_state_step_keeps(
    acc: MacAcc,
    code: Seq<char>,
    kc: u32,
    m: ModState,
    tr: (Option<Seq<char>>, bool),
    target: Seq<char>,
    ks: KeystrokeView,
    d: (u32, ModState),
)
    requires
        keys_distinct(acc.0),
    ensures
        lists(acc.0, target, ks) ==> lists(state_step(acc, code, kc, m, tr).0, target, ks),
        acc.1.contains(d) ==> state_step(acc, code, kc, m, tr).1.contains(d),
{
    let r = state_step(acc, code, kc, m, tr);
    if let Some(out) = tr.0 {
        if out.len() > 0 {
            lemma_append_lists(acc.0, out, single_view(code, state_modifiers(m)), target, ks);
        }
    }
    if acc.1.contains(d) {
        let k = choose|k: int| 0 <= k < acc.1.len() && acc.1[k] == d;
        assert(r.1[k] == d);
    }
}

proof fn lemma_states_fold_keeps(
    acc: MacAcc,
    code: Seq<char>,
    kc: u32,
    trs: Seq<(Option<Seq<char>>, bool)>,
    n: nat,
    target: Seq<char>,
    ks: KeystrokeView,
    d: (u32, ModState),
)
    requires
        mac_acc_ok(acc),
        n <= 4,
    ensures
        lists(acc.0, target, ks) ==> lists(states_fold(acc, code, kc, trs, n).0, target, ks),
        acc.1.contains(d) ==> states_fold(acc, code, kc, trs, n).1.contains(d),
    decreases n,
{
    if n > 0 {
        lemma_states_fold_keeps(acc, code, kc, trs, (n - 1) as nat, target, ks, d);
        lemma_states_fold_ok(acc, code, kc, trs, (n - 1) as nat);
        lemma_state_step_keeps(states_fold(acc, code, kc, trs, (n - 1) as nat), code, kc, mod_states()[n - 1], trs[n - 1], target, ks, d);
    }
}

proof fn lemma_states_fold_lists(
    acc: MacAcc,
    code: Seq<char>,
    kc: u32,
    trs: Seq<(Option<Seq<char>>, bool)>,
    n: nat,
    s: int,
    target: Seq<char>,
    ks: KeystrokeView,
    d: (u32, ModState),
)
    requires
        mac_acc_ok(acc),
        n <= 4,
        0 <= s < n,
    ensures
        tr_gives(trs, s, code, target, ks) ==> lists(states_fold(acc, code, kc, trs, n).0, target, ks),
        tr_dead(trs, s, kc, d) ==> states_fold(acc, code, kc, trs, n).1.contains(d),
    decreases n,
{
    let a = states_fold(acc, code, kc, trs, (n - 1) as nat);
    lemma_states_fold_ok(acc, code, kc, trs, (n - 1) as nat);
    if s == n - 1 {
        let r = states_fold(acc, code, kc, trs, n);
        if tr_gives(trs, s, code, target, ks) {
            lemma_append_lists(a.0, target, ks, target, ks);
        }
        if tr_dead(trs, s, kc, d) {
            assert(r.1[r.1.len() - 1] == d);
        }
    } else {
        lemma_states_fold_lists(acc, code, kc, trs, (n - 1) as nat, s, target, ks, d);
        lemma_state_step_keeps(a, code, kc, mod_states()[n - 1], trs[n - 1], target, ks, d);
    }
}

proof fn lemma_mac_fold_lists(
    keys: Seq<Seq<(Option<Seq<char>>, bool)>>,
    t: Seq<W3cKeyView>,
    i: int,
    s: int,
    target: Seq<char>,
    ks: KeystrokeView,
    d: (u32, ModState),
)
    requires
        0 <= i < t.len(),
        0 <= s < 4,
    ensures
        state_gives(keys, t, i, s, target, ks) ==> lists(mac_fold(keys, t).0, target, ks),
        state_dead(keys, t, i, s, d) ==> mac_fold(keys, t).1.contains(d),
    decreases t.len(),
{
    let pre = t.drop_last();
    let last = t.len() - 1;
    let a = mac_fold(keys, pre);
    lemma_mac_fold_ok(keys, pre);
    if i == last {
        lemma_states_fold_lists(a, t[i].code, t[i].macos_keycode, keys[i], 4, s, target, ks, d);
    } else {
        assert(pre[i] == t[i]);
        lemma_mac_fold_lists(keys, pre, i, s, target, ks, d);
        lemma_states_fold_keeps(a, t[last].code, t[last].macos_keycode, keys[last], 4, target, ks, d);
    }
}

proof fn lemma_mac_compose_keeps(
    ms: Seq<(Seq<char>, Seq<KeystrokeView>)>,
    kc: u32,
    m: ModState,
    dcode: Seq<char>,
    outs: Seq<Option<Seq<char>>>,
    t: Seq<W3cKeyView>,
    target: Seq<char>,
    ks: KeystrokeView,
)
    requires
        keys_distinct(ms),
        lists(ms, target, ks),
    ensures
        lists(mac_compose_fold(ms, kc, m, dcode, outs, t), target, ks),
    decreases t.len(),
{
    if t.len() > 0 {
        let j = t.len() - 1;
        lemma_mac_compose_keeps(ms, kc, m, dcode, outs, t.drop_last(), target, ks);
        lemma_mac_compose_distinct(ms, kc, m, dcode, outs, t.drop_last());
        let r = mac_compose_fold(ms, kc, m, dcode, outs, t.drop_last());
        if let Some(o) = outs[j] {
            lemma_append_lists(r, o, dead_key_view(dcode, state_modifiers(m), t[j].code, seq![]), target, ks);
        }
    }
}

proof fn lemma_mac_compose_lists(
    ms: Seq<(Seq<char>, Seq<KeystrokeView>)>,
    kc: u32,
    m: ModState,
    dcode: Seq<char>,
    outs: Seq<Option<Seq<char>>>,
    t: Seq<W3cKeyView>,
    j: int,
    target: Seq<char>,
    ks: KeystrokeView,
)
    requires
        keys_distinct(ms),
        mac_dead_out(outs, t, j, kc, m, dcode, target, ks),
    ensures
        lists(mac_compose_fold(ms, kc, m, dcode, outs, t), target, ks),
    decreases t.len(),
{
    let pre = t.drop_last();
    let r = mac_compose_fold(ms, kc, m, dcode, outs, pre);
    lemma_mac_compose_distinct(ms, kc, m, dcode, outs, pre);
    if j == t.len() - 1 {
        lemma_append_lists(r, target, ks, target, ks);
    } else {
        assert(pre[j] == t[j]);
        lemma_mac_compose_lists(ms, kc, m, dcode, outs, pre, j, target, ks);
        let last = t.len() - 1;
        if let Some(o) = outs[last] {
            lemma_append_lists(r, o, dead_key_view(dcode, state_modifiers(m), t[last].code, seq![]), target, ks);
        }
    }
}

proof fn lemma_mac_compositions_keeps(
    ms: Seq<(Seq<char>, Seq<KeystrokeView>)>,
    deads: Seq<(u32, ModState)>,
    outs: Seq<Seq<Option<Seq<char>>>>,
    target: Seq<char>,
    ks: KeystrokeView,
)
    requires
        keys_distinct(ms),
        lists(ms, target, ks),
    ensures
        lists(mac_compositions_fold(ms, deads, outs), target, ks),
    decreases deads.len(),
{
    if deads.len() > 0 {
        let i = deads.len() - 1;
        let pre = deads.drop_last();
        lemma_mac_compositions_keeps(ms, pre, outs, target, ks);
        lemma_mac_compositions_distinct(ms, pre, outs);
        let pos = macos_pos(w3c_table(), deads[i].0);
        if pos < w3c_table().len() {
            lemma_mac_compose_keeps(mac_compositions_fold(ms, pre, outs), deads[i].0, deads[i].1, w3c_table()[pos as int].code, outs[i], w3c_table(), target, ks);
        }
    }
}

proof fn lemma_mac_compositions_lists(
    ms: Seq<(Seq<char>, Seq<KeystrokeView>)>,
    deads: Seq<(u32, ModState)>,
    outs: Seq<Seq<Option<Seq<char>>>>,
    p: int,
    j: int,
    target: Seq<char>,
    ks: KeystrokeView,
)
    requires
        keys_distinct(ms),
        mac_comp_gives(deads, outs, p, j, target, ks),
    ensures
        lists(mac_compositions_fold(ms, deads, outs), target, ks),
    decreases deads.len(),
{
    let t = w3c_table();
    let pre = deads.drop_last();
    let i = deads.len() - 1;
    let r = mac_compositions_fold(ms, pre, outs);
    lemma_mac_compositions_distinct(ms, pre, outs);
    let pos = macos_pos(t, deads[i].0);
    if p == i {
        lemma_mac_compose_lists(r, deads[i].0, deads[i].1, t[pos as int].code, outs[i], t, j, target, ks);
    } else {
        assert(pre[p] == deads[p]);
        lemma_mac_compositions_lists(ms, pre, outs, p, j, target, ks);
        if pos < t.len() {
            lemma_mac_compose_keeps(r, deads[i].0, deads[i].1, t[pos as int].code, outs[i], t, target, ks);
        }
    }
}

/// Everything `UCKeyTranslate` gives is kept: each non-empty translation of a key under a
/// probed state is listed for that text, each dead key under a probed state is recorded, and
/// each non-empty text composed by a recorded dead key with another key is listed for it.
pub proof fn lemma_mac_translations_listed(
    keys: Seq<Seq<(Option<Seq<char>>, bool)>>,
    composed: Seq<Seq<Option<Seq<char>>>>,
    i: int,
    s: int,
    p: int,
    j: int,
    target: Seq<char>,
    ks: KeystrokeView,
    d: (u32, ModState),
)
    ensures
        state_gives(keys, w3c_table(), i, s, target, ks) ==> lists(
            mac_compositions_fold(mac_fold(keys, w3c_table()).0, mac_fold(keys, w3c_table()).1, composed),
            target,
            ks,
        ),
        state_dead(keys, w3c_table(), i, s, d) ==> mac_fold(keys, w3c_table()).1.contains(d),
        mac_comp_gives(mac_fold(keys, w3c_table()).1, composed, p, j, target, ks) ==> lists(
            mac_compositions_fold(mac_fold(keys, w3c_table()).0, mac_fold(keys, w3c_table()).1, composed),
            target,
            ks,
        ),
{
    let t = w3c_table();
    let st = mac_fold(keys, t);
    lemma_mac_fold_ok(keys, t);
    if 0 <= i < t.len() && 0 <= s < 4 {
        lemma_mac_fold_lists(keys, t, i, s, target, ks, d);
        if state_gives(keys, t, i, s, target, ks) {
            lemma_mac_compositions_keeps(st.0, st.1, composed, target, ks);
        }
    }
    if mac_comp_gives(st.1, composed, p, j, target, ks) {
        lemma_mac_compositions_lists(st.0, st.1, composed, p, j, target, ks);
    }
}

} // verus!
