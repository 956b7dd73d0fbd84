//! Linux extraction: what xkbcommon reports for each W3C key at each queried level is turned
//! into single-press alternatives and dead-key sources; the texts xkbcommon composes for each
//! dead key followed by every other key become two-press alternatives.
use vstd::prelude::*;

use crate::model::{
    all_known, clone_strings, dead_key_view, is_known_modifier, layout_valid, lemma_append_lists,
    lemma_append_ok, lemma_dead_key_view_valid, lists, lemma_mappings_ok_no_error, lemma_single_view_valid, mappings_ok,
    opt_str_view, single_view, strings_eq, Keystroke, KeystrokeView, LayoutFile, LayoutFileView,
    LayoutMetadata, LayoutMetadataView,
};
use crate::strmap::{assoc_append, keys_distinct, StrMap};
use crate::text::{starts_with, starts_with_str, str_chars, strip_trailing, strip_trailing_chars, chars_to_string};
use crate::w3c_keys::{w3c_keys, w3c_table, W3cKeyView};

verus! {

/// The XKB levels queried on Linux, with their W3C modifiers: 0 = base, 1 = Shift,
/// 2 = AltGr (ISO Level 3), 3 = Shift + AltGr.
pub open spec fn linux_levels() -> Seq<(u32, Seq<Seq<char>>)> {
    seq![
        (0u32, seq![]),
        (1u32, seq!["Shift"@]),
        (2u32, seq!["AltGraph"@]),
        (3u32, seq!["Shift"@, "AltGraph"@]),
    ]
}

/// The XKB levels queried on Linux, with their W3C modifiers.
pub fn levels() -> (r: Vec<(u32, Vec<String>)>)
    ensures
        r.deep_view() == linux_levels(),
{
    let mut r: Vec<(u32, Vec<String>)> = Vec::new();
    r.push((0, Vec::new()));
    let mut m1: Vec<String> = Vec::new();
    m1.push("Shift".to_owned());
    r.push((1, m1));
    let mut m2: Vec<String> = Vec::new();
    m2.push("AltGraph".to_owned());
    r.push((2, m2));
    let mut m3: Vec<String> = Vec::new();
    m3.push("Shift".to_owned());
    m3.push("AltGraph".to_owned());
    r.push((3, m3));
    assert(r.deep_view()[0].1 =~= linux_levels()[0].1);
    assert(r.deep_view()[1].1 =~= linux_levels()[1].1);
    assert(r.deep_view()[2].1 =~= linux_levels()[2].1);
    assert(r.deep_view()[3].1 =~= linux_levels()[3].1);
    assert(r.deep_view() =~= linux_levels());
    r
}

/// What xkbcommon reports for one level of a key: the name of its first keysym
/// (`keysym_get_name`) and that keysym's UTF-8 text (`keysym_to_utf8`).
#[derive(Debug, Clone, PartialEq, Eq)]
pub struct LevelSym {
    pub name: String,
    pub utf8: String,
}

impl DeepView for LevelSym {
    type V = (Seq<char>, Seq<char>);

    open spec fn deep_view(&self) -> (Seq<char>, Seq<char>) {
        (self.name@, self.utf8@)
    }
}

/// What xkbcommon reports for one key: its number of levels, and for each queried level (in
/// the order of `levels()`) its first keysym, or nothing when the level has no keysym or was
/// not queried.
#[derive(Debug, Clone, PartialEq, Eq)]
pub struct KeyLevels {
    pub num_levels: u32,
    pub syms: Vec<Option<LevelSym>>,
}

impl DeepView for KeyLevels {
    type V = (u32, Seq<Option<(Seq<char>, Seq<char>)>>);

    open spec fn deep_view(&self) -> (u32, Seq<Option<(Seq<char>, Seq<char>)>>) {
        (self.num_levels, self.syms.deep_view())
    }
}

/// The first stage of a Linux extraction: the single-press alternatives, and the dead keys
/// found (Linux keycode, modifiers), each once, in the order found.
#[derive(Debug)]
pub struct LinuxStage {
    pub mappings: StrMap<Vec<Keystroke>>,
    pub dead_sources: Vec<(u32, Vec<String>)>,
}

pub type LinuxAcc = (Seq<(Seq<char>, Seq<KeystrokeView>)>, Seq<(u32, Seq<Seq<char>>)>);

/// One queried level of the key `code` (Linux keycode `kc`) under `mods`: a keysym named
/// `dead_*` records a dead key (once); any other keysym's text, without trailing NUL
/// characters, gets the single press when it is not empty.
pub open spec fn level_step(
    acc: LinuxAcc,
    code: Seq<char>,
    kc: u32,
    mods: Seq<Seq<char>>,
    sym: Option<(Seq<char>, Seq<char>)>,
) -> LinuxAcc {
    match sym {
        None => acc,
        Some((name, utf8)) => if starts_with(name, "dead_"@) {
            if acc.1.contains((kc, mods)) {
                acc
            } else {
                (acc.0, acc.1.push((kc, mods)))
            }
        } else {
            let out = strip_trailing(utf8, '\0');
            if out.len() == 0 {
                acc
            } else {
                (assoc_append(acc.0, out, single_view(code, mods)), acc.1)
            }
        },
    }
}

/// The levels that are queried for a key with `num_levels` levels: those below the count.
pub open spec fn probed_levels(num_levels: u32) -> nat {
    if num_levels < 4 {
        num_levels as nat
    } else {
        4
    }
}

/// The first `n` levels of one key.
pub open spec fn key_fold(
    acc: LinuxAcc,
    code: Seq<char>,
    kc: u32,
    syms: Seq<Option<(Seq<char>, Seq<char>)>>,
    n: nat,
) -> LinuxAcc
    decreases n,
{
    if n == 0 {
        acc
    } else {
        level_step(key_fold(acc, code, kc, syms, (n - 1) as nat), code, kc, linux_levels()[n - 1].1, syms[n - 1])
    }
}

/// The keys of the table `t`, each with what was reported for it (`keys` follows the table).
pub open spec fn linux_fold(keys: Seq<(u32, Seq<Option<(Seq<char>, Seq<char>)>>)>, t: Seq<W3cKeyView>) -> LinuxAcc
    decreases t.len(),
{
    if t.len() == 0 {
        (seq![], seq![])
    } else {
        let i = t.len() - 1;
        key_fold(linux_fold(keys, t.drop_last()), t[i].code, t[i].linux_keycode, keys[i].1, probed_levels(keys[i].0))
    }
}

/// The reports have one entry per W3C key and one per queried level.
pub open spec fn keys_shaped(keys: Seq<(u32, Seq<Option<(Seq<char>, Seq<char>)>>)>) -> bool {
    keys.len() == w3c_table().len() && forall|i: int| 0 <= i < keys.len() ==> (#[trigger] keys[i]).1.len() == 4
}

/// The single presses and dead keys of a keymap, from what xkbcommon reports for each W3C key.
pub fn linux_first_stage(keys: &Vec<KeyLevels>) -> (st: LinuxStage)
    requires
        keys_shaped(keys.deep_view()),
    ensures
        (st.mappings.pairs(), st.dead_sources.deep_view()) == linux_fold(keys.deep_view(), w3c_table()),
{
    let table = w3c_keys();
    let lv = levels();
    assert(lv@.len() == 4) by {
        assert(lv.deep_view().len() == linux_levels().len());
    }
    let ghost t = w3c_table();
    let ghost kv = keys.deep_view();
    let mut mappings: StrMap<Vec<Keystroke>> = StrMap::new();
    let mut dead_sources: Vec<(u32, Vec<String>)> = Vec::new();
    assert(t.take(0) =~= Seq::<W3cKeyView>::empty());
    assert(dead_sources.deep_view() =~= Seq::<(u32, Seq<Seq<char>>)>::empty());
    for i in 0..table.len()
        invariant
            table.deep_view() == t,
            t == w3c_table(),
            lv.deep_view() == linux_levels(),
            lv@.len() == 4,
            kv == keys.deep_view(),
            keys_shaped(kv),
            (mappings.pairs(), dead_sources.deep_view()) == linux_fold(kv, t.take(i as int)),
    {
        assert(t.take(i + 1).drop_last() =~= t.take(i as int));
        assert(t.take(i + 1)[i as int] == t[i as int]);
        assert(table[i as int].deep_view() == t[i as int]);
        assert(kv[i as int] == keys[i as int].deep_view());
        let code = table[i].code;
        let kc = table[i].linux_keycode;
        let key = &keys[i];
        let ghost before = (mappings.pairs(), dead_sources.deep_view());
        let ghost syms = kv[i as int].1;
        let n: usize = if key.num_levels < 4 { key.num_levels as usize } else { 4 };
        for j in 0..n
            invariant
                n == probed_levels(key.num_levels),
                n <= 4,
                key.syms.deep_view() == syms,
                syms.len() == 4,
                lv.deep_view() == linux_levels(),
                lv@.len() == 4,
                code@ == t[i as int].code,
                kc == t[i as int].linux_keycode,
                (mappings.pairs(), dead_sources.deep_view()) == key_fold(before, code@, kc, syms, j as nat),
        {
            assert(lv.deep_view()[j as int] == lv[j as int].deep_view());
            assert(syms[j as int] == key.syms[j as int].deep_view());
            match &key.syms[j] {
                None => {},
                Some(sym) => {
                    let name = str_chars(sym.name.as_str());
                    let mods = &lv[j].1;
                    if starts_with_str(name.as_slice(), "dead_") {
                        let mut seen = false;
                        let ghost ds = dead_sources.deep_view();
                        for k in 0..dead_sources.len()
                            invariant
                                ds == dead_sources.deep_view(),
                                seen <==> exists|q: int| 0 <= q < k && ds[q] == (kc, mods.deep_view()),
                        {
                            assert(ds[k as int] == dead_sources[k as int].deep_view());
                            if dead_sources[k].0 == kc && strings_eq(&dead_sources[k].1, mods) {
                                seen = true;
                            }
                        }
                        assert(seen <==> ds.contains((kc, mods.deep_view())));
                        if !seen {
                            let ghost prev = dead_sources.deep_view();
                            dead_sources.push((kc, clone_strings(mods)));
                            assert(dead_sources.deep_view() =~= prev.push((kc, mods.deep_view())));
                        }
                    } else {
                        let u = str_chars(sym.utf8.as_str());
                        let out = strip_trailing_chars(u.as_slice(), '\0');
                        if out.len() > 0 {
                            let ks = Keystroke::single(code, clone_strings(mods));
                            mappings.push_to(chars_to_string(out.as_slice()), ks);
                        }
                    }
                },
            }
        }
    }
    assert(t.take(table.len() as int) =~= t);
    LinuxStage { mappings, dead_sources }
}

/// Position of the first table row with Linux keycode `kc`, or the table length.
pub open spec fn linux_pos(t: Seq<W3cKeyView>, kc: u32) -> nat
    decreases t.len(),
{
    if t.len() == 0 || t[0].linux_keycode == kc {
        0
    } else {
        1 + linux_pos(t.drop_first(), kc)
    }
}

/// The compositions of one dead key (`kc` under `dmods`, W3C code `dcode`) with the keys of
/// `t`: each other key whose composed text `outs[j]` is not empty gets the two-press
/// alternative (base key without modifiers).
pub open spec fn compose_dead_fold(
    ms: Seq<(Seq<char>, Seq<KeystrokeView>)>,
    kc: u32,
    dmods: Seq<Seq<char>>,
    dcode: Seq<char>,
    outs: Seq<Option<Seq<char>>>,
    t: Seq<W3cKeyView>,
) -> Seq<(Seq<char>, Seq<KeystrokeView>)>
    decreases t.len(),
{
    if t.len() == 0 {
        ms
    } else {
        let j = t.len() - 1;
        let m = compose_dead_fold(ms, kc, dmods, dcode, outs, t.drop_last());
        if t[j].linux_keycode == kc {
            m
        } else {
            match outs[j] {
                Some(o) => if o.len() > 0 {
                    assoc_append(m, o, dead_key_view(dcode, dmods, t[j].code, seq![]))
                } else {
                    m
                },
                None => m,
            }
        }
    }
}

/// The compositions of every dead key, in order (`outs[i]` holds what dead key `i` composes
/// with each W3C key).
pub open spec fn compositions_fold(
    ms: Seq<(Seq<char>, Seq<KeystrokeView>)>,
    deads: Seq<(u32, Seq<Seq<char>>)>,
    outs: Seq<Seq<Option<Seq<char>>>>,
) -> Seq<(Seq<char>, Seq<KeystrokeView>)>
    decreases deads.len(),
{
    if deads.len() == 0 {
        ms
    } else {
        let i = deads.len() - 1;
        let m = compositions_fold(ms, deads.drop_last(), outs);
        let p = linux_pos(w3c_table(), deads[i].0);
        if p < w3c_table().len() {
            compose_dead_fold(m, deads[i].0, deads[i].1, w3c_table()[p as int].code, outs[i], w3c_table())
        } else {
            m
        }
    }
}

/// The composed texts have one list per dead key and one entry per W3C key.
pub open spec fn composed_shaped(outs: Seq<Seq<Option<Seq<char>>>>, n: nat) -> bool {
    outs.len() == n && forall|i: int| 0 <= i < outs.len() ==> (#[trigger] outs[i]).len() == w3c_table().len()
}

/// The Linux layout `layout`/`variant` from its first stage and the texts composed for each of
/// its dead keys (`composed[i][j]`: dead key `i`, then W3C key `j`).
pub fn linux_layout(
    layout: &str,
    variant: Option<&str>,
    extracted_on: String,
    stage: LinuxStage,
    composed: &Vec<Vec<Option<String>>>,
) -> (l: LayoutFile)
    requires
        composed_shaped(composed.deep_view(), stage.dead_sources.deep_view().len()),
    ensures
        l.mappings.pairs() == compositions_fold(stage.mappings.pairs(), stage.dead_sources.deep_view(), composed.deep_view()),
        l@.metadata.platform == "linux"@,
        l@.metadata.layout_name == layout@,
        l@.metadata.layout_variant == opt_str_view(variant),
        l@.metadata.display_name is None,
        l@.metadata.extracted_on == extracted_on@,
{
    let table = w3c_keys();
    let ghost t = w3c_table();
    let ghost ov = composed.deep_view();
    let LinuxStage { mut mappings, dead_sources } = stage;
    let ghost ms0 = mappings.pairs();
    let ghost dv = dead_sources.deep_view();
    assert(dv.take(0) =~= Seq::<(u32, Seq<Seq<char>>)>::empty());
    for i in 0..dead_sources.len()
        invariant
            table.deep_view() == t,
            t == w3c_table(),
            dv == dead_sources.deep_view(),
            ov == composed.deep_view(),
            composed_shaped(ov, dv.len()),
            mappings.pairs() == compositions_fold(ms0, dv.take(i as int), ov),
    {
        assert(dv.take(i + 1).drop_last() =~= dv.take(i as int));
        assert(dv.take(i + 1)[i as int] == dv[i as int]);
        assert(dv[i as int] == dead_sources[i as int].deep_view());
        let kc = dead_sources[i].0;
        let dmods = &dead_sources[i].1;
        let mut p: usize = 0;
        assert(t.skip(0) =~= t);
        while p < table.len() && table[p].linux_keycode != kc
            invariant
                table.deep_view() == t,
                p <= t.len(),
                linux_pos(t, kc) == p + linux_pos(t.skip(p as int), kc),
            decreases t.len() - p,
        {
            assert(table[p as int].deep_view() == t[p as int]);
            assert(t.skip(p as int).drop_first() =~= t.skip(p + 1));
            p += 1;
        }
        if p < table.len() {
            assert(table[p as int].deep_view() == t[p as int]);
            assert(t.skip(p as int)[0] == t[p as int]);
            let dcode = table[p].code;
            let ghost before = mappings.pairs();
            assert(ov[i as int] == composed[i as int].deep_view());
            let outs = &composed[i];
            let ghost outv = ov[i as int];
            assert(t.take(0) =~= Seq::<W3cKeyView>::empty());
            for j in 0..table.len()
                invariant
                    table.deep_view() == t,
                    t == w3c_table(),
                    outs.deep_view() == outv,
                    outv.len() == t.len(),
                    dcode@ == t[linux_pos(t, kc) as int].code,
                    mappings.pairs() == compose_dead_fold(before, kc, dmods.deep_view(), dcode@, outv, t.take(j as int)),
            {
                assert(t.take(j + 1).drop_last() =~= t.take(j as int));
                assert(t.take(j + 1)[j as int] == t[j as int]);
                assert(table[j as int].deep_view() == t[j as int]);
                assert(outv[j as int] == outs[j as int].deep_view());
                if table[j].linux_keycode != kc {
                    match &outs[j] {
                        Some(o) => {
                            if !o.as_str().is_empty() {
                                let no_mods: Vec<String> = Vec::new();
                                assert(no_mods.deep_view() =~= Seq::<Seq<char>>::empty());
                                let ks = Keystroke::dead_key(dcode, clone_strings(dmods), table[j].code, no_mods);
                                assert(ks.deep_view().sequence =~= dead_key_view(dcode@, dmods.deep_view(), t[j as int].code, seq![]).sequence);
                                mappings.push_to(o.clone(), ks);
                            }
                        },
                        None => {},
                    }
                }
            }
            assert(t.take(t.len() as int) =~= t);
        }
    }
    assert(dv.take(dv.len() as int) =~= dv);
    LayoutFile {
        metadata: LayoutMetadata {
            platform: "linux".to_owned(),
            layout_name: layout.to_owned(),
            layout_variant: match variant {
                Some(v) => Some(v.to_owned()),
                None => None,
            },
            display_name: None,
            extracted_on,
        },
        mappings,
    }
}

/// A first stage so far: valid mappings under distinct targets, and dead keys whose modifiers
/// are W3C modifiers.
pub open spec fn linux_acc_ok(acc: LinuxAcc) -> bool {
    &&& mappings_ok(acc.0)
    &&& keys_distinct(acc.0)
    &&& forall|i: int| 0 <= i < acc.1.len() ==> all_known((#[trigger] acc.1[i]).1)
}

proof fn lemma_levels_known(n: int)
    requires
        0 <= n < 4,
    ensures
        all_known(linux_levels()[n].1),
{
    let ms = linux_levels()[n].1;
    assert forall|i: int| 0 <= i < ms.len() implies is_known_modifier(#[trigger] ms[i]) by {
        if n == 3 && i == 1 {
            assert(ms[i] == "AltGraph"@);
        } else if n == 2 {
            assert(ms[i] == "AltGraph"@);
        } else {
            assert(ms[i] == "Shift"@);
        }
    }
}

proof fn lemma_level_step_ok(
    acc: LinuxAcc,
    code: Seq<char>,
    kc: u32,
    mods: Seq<Seq<char>>,
    sym: Option<(Seq<char>, Seq<char>)>,
)
    requires
        linux_acc_ok(acc),
        all_known(mods),
    ensures
        linux_acc_ok(level_step(acc, code, kc, mods, sym)),
{
    match sym {
        None => {},
        Some((name, utf8)) => {
            if starts_with(name, "dead_"@) {
                if !acc.1.contains((kc, mods)) {
                    let r = acc.1.push((kc, mods));
                    assert forall|i: int| 0 <= i < r.len() implies all_known((#[trigger] r[i]).1) by {
                        if i < acc.1.len() {
                            assert(r[i] == acc.1[i]);
                        }
                    }
                }
            } else {
                let out = strip_trailing(utf8, '\0');
                if out.len() > 0 {
                    lemma_single_view_valid(code, mods);
                    lemma_append_ok(acc.0, out, single_view(code, mods));
                }
            }
        },
    }
}

proof fn lemma_key_fold_ok(
    acc: LinuxAcc,
    code: Seq<char>,
    kc: u32,
    syms: Seq<Option<(Seq<char>, Seq<char>)>>,
    n: nat,
)
    requires
        linux_acc_ok(acc),
        n <= 4,
    ensures
        linux_acc_ok(key_fold(acc, code, kc, syms, n)),
    decreases n,
{
    if n > 0 {
        lemma_key_fold_ok(acc, code, kc, syms, (n - 1) as nat);
        lemma_levels_known(n - 1);
        lemma_level_step_ok(key_fold(acc, code, kc, syms, (n - 1) as nat), code, kc, linux_levels()[n - 1].1, syms[n - 1]);
    }
}

proof fn lemma_linux_fold_ok(keys: Seq<(u32, Seq<Option<(Seq<char>, Seq<char>)>>)>, t: Seq<W3cKeyView>)
    ensures
        linux_acc_ok(linux_fold(keys, t)),
    decreases t.len(),
{
    if t.len() > 0 {
        let i = t.len() - 1;
        lemma_linux_fold_ok(keys, t.drop_last());
        lemma_key_fold_ok(linux_fold(keys, t.drop_last()), t[i].code, t[i].linux_keycode, keys[i].1, probed_levels(keys[i].0));
    } else {
        assert(keys_distinct(Seq::<(Seq<char>, Seq<KeystrokeView>)>::empty()));
    }
}

proof fn lemma_compose_dead_fold_ok(
    ms: Seq<(Seq<char>, Seq<KeystrokeView>)>,
    kc: u32,
    dmods: Seq<Seq<char>>,
    dcode: Seq<char>,
    outs: Seq<Option<Seq<char>>>,
    t: Seq<W3cKeyView>,
)
    requires
        mappings_ok(ms),
        keys_distinct(ms),
        all_known(dmods),
    ensures
        mappings_ok(compose_dead_fold(ms, kc, dmods, dcode, outs, t)),
        keys_distinct(compose_dead_fold(ms, kc, dmods, dcode, outs, t)),
    decreases t.len(),
{
    if t.len() > 0 {
        let j = t.len() - 1;
        lemma_compose_dead_fold_ok(ms, kc, dmods, dcode, outs, t.drop_last());
        let m = compose_dead_fold(ms, kc, dmods, dcode, outs, t.drop_last());
        if t[j].linux_keycode != kc {
            if let Some(o) = outs[j] {
                if o.len() > 0 {
                    lemma_dead_key_view_valid(dcode, dmods, t[j].code, seq![]);
                    lemma_append_ok(m, o, dead_key_view(dcode, dmods, t[j].code, seq![]));
                }
            }
        }
    }
}

proof fn lemma_compositions_fold_ok(
    ms: Seq<(Seq<char>, Seq<KeystrokeView>)>,
    deads: Seq<(u32, Seq<Seq<char>>)>,
    outs: Seq<Seq<Option<Seq<char>>>>,
)
    requires
        mappings_ok(ms),
        keys_distinct(ms),
        forall|i: int| 0 <= i < deads.len() ==> all_known((#[trigger] deads[i]).1),
    ensures
        mappings_ok(compositions_fold(ms, deads, outs)),
        keys_distinct(compositions_fold(ms, deads, outs)),
    decreases deads.len(),
{
    if deads.len() > 0 {
        let i = deads.len() - 1;
        lemma_compositions_fold_ok(ms, deads.drop_last(), outs);
        assert(all_known(deads[i].1));
        let p = linux_pos(w3c_table(), deads[i].0);
        if p < w3c_table().len() {
            lemma_compose_dead_fold_ok(
                compositions_fold(ms, deads.drop_last(), outs),
                deads[i].0,
                deads[i].1,
                w3c_table()[p as int].code,
                outs[i],
                w3c_table(),
            );
        }
    }
}

/// Whatever xkbcommon reports and composes, the Linux layout built from it passes layout
/// validation (given a non-empty layout name and extraction time): every target and
/// alternatives list is non-empty, targets are distinct, and every modifier is a W3C modifier.
pub proof fn lemma_linux_layout_valid(
    keys: Seq<(u32, Seq<Option<(Seq<char>, Seq<char>)>>)>,
    composed: Seq<Seq<Option<Seq<char>>>>,
    layout: Seq<char>,
    variant: Option<Seq<char>>,
    extracted_on: Seq<char>,
)
    requires
        layout.len() > 0,
        extracted_on.len() > 0,
    ensures
        ({
            let st = linux_fold(keys, w3c_table());
            let ms = compositions_fold(st.0, st.1, composed);
            &&& keys_distinct(ms)
            &&& layout_valid(
                LayoutFileView {
                    metadata: LayoutMetadataView {
                        platform: "linux"@,
                        layout_name: layout,
                        layout_variant: variant,
                        display_name: None,
                        extracted_on,
                    },
                    mappings: ms,
                },
            )
        }),
{
    reveal_strlit("linux");
    let st = linux_fold(keys, w3c_table());
    lemma_linux_fold_ok(keys, w3c_table());
    lemma_compositions_fold_ok(st.0, st.1, composed);
    lemma_mappings_ok_no_error(compositions_fold(st.0, st.1, composed));
}

/// Level `lvl` of the report `syms` of the key `code` is a keysym that is no dead key, whose
/// text without trailing NUL characters is the non-empty `target`; `ks` presses the key under
/// the level's modifiers.
pub open spec fn sym_gives(syms: Seq<Option<(Seq<char>, Seq<char>)>>, lvl: int, code: Seq<char>, target: Seq<char>, ks: KeystrokeView) -> bool {
    &&& 0 <= lvl < 4
    &&& syms[lvl] matches Some((name, utf8))
    &&& !starts_with(name, "dead_"@)
    &&& strip_trailing(utf8, '\0') == target
    &&& target.len() > 0
    &&& ks == single_view(code, linux_levels()[lvl].1)
}

/// Level `lvl` of the report `syms` of the key with Linux keycode `kc` is a dead keysym, and
/// `d` is that key under the level's modifiers.
pub open spec fn sym_dead(syms: Seq<Option<(Seq<char>, Seq<char>)>>, lvl: int, kc: u32, d: (u32, Seq<Seq<char>>)) -> bool {
    &&& 0 <= lvl < 4
    &&& syms[lvl] matches Some((name, utf8))
    &&& starts_with(name, "dead_"@)
    &&& d == (kc, linux_levels()[lvl].1)
}

/// A queried level of the key at `i` in `t` gives `target` by `ks`.
pub open spec fn level_gives(
    keys: Seq<(u32, Seq<Option<(Seq<char>, Seq<char>)>>)>,
    t: Seq<W3cKeyView>,
    i: int,
    lvl: int,
    target: Seq<char>,
    ks: KeystrokeView,
) -> bool {
    0 <= i < t.len() && lvl < probed_levels(keys[i].0) && sym_gives(keys[i].1, lvl, t[i].code, target, ks)
}

/// A queried level of the key at `i` in `t` is the dead key `d`.
pub open spec fn level_dead(
    keys: Seq<(u32, Seq<Option<(Seq<char>, Seq<char>)>>)>,
    t: Seq<W3cKeyView>,
    i: int,
    lvl: int,
    d: (u32, Seq<Seq<char>>),
) -> bool {
    0 <= i < t.len() && lvl < probed_levels(keys[i].0) && sym_dead(keys[i].1, lvl, t[i].linux_keycode, d)
}

pub open spec fn some_level_gives(
    keys: Seq<(u32, Seq<Option<(Seq<char>, Seq<char>)>>)>,
    t: Seq<W3cKeyView>,
    target: Seq<char>,
    ks: KeystrokeView,
) -> bool {
    exists|i: int, lvl: int| level_gives(keys, t, i, lvl, target, ks)
}

pub open spec fn some_level_dead(keys: Seq<(u32, Seq<Option<(Seq<char>, Seq<char>)>>)>, t: Seq<W3cKeyView>, d: (u32, Seq<Seq<char>>)) -> bool {
    exists|i: int, lvl: int| level_dead(keys, t, i, lvl, d)
}

/// What the first stage over `t` lists and records comes from the queried levels of the keys
/// of `t`.
pub open spec fn linux_sourced(keys: Seq<(u32, Seq<Option<(Seq<char>, Seq<char>)>>)>, t: Seq<W3cKeyView>) -> bool {
    let st = linux_fold(keys, t);
    &&& forall|target: Seq<char>, ks: KeystrokeView| #[trigger] lists(st.0, target, ks) ==> some_level_gives(keys, t, target, ks)
    &&& forall|p: int| 0 <= p < st.1.len() ==> some_level_dead(keys, t, #[trigger] st.1[p])
}

proof fn lemma_key_fold_from(
    acc: LinuxAcc,
    code: Seq<char>,
    kc: u32,
    syms: Seq<Option<(Seq<char>, Seq<char>)>>,
    n: nat,
    target: Seq<char>,
    ks: KeystrokeView,
)
    requires
        linux_acc_ok(acc),
        n <= 4,
        lists(key_fold(acc, code, kc, syms, n).0, target, ks),
    ensures
        lists(acc.0, target, ks) || exists|lvl: int| lvl < n && sym_gives(syms, lvl, code, target, ks),
    decreases n,
{
    if n > 0 {
        let a = key_fold(acc, code, kc, syms, (n - 1) as nat);
        lemma_key_fold_ok(acc, code, kc, syms, (n - 1) as nat);
        let lvl = n - 1;
        let mods = linux_levels()[lvl].1;
        let from_pre = match syms[lvl] {
            Some((name, utf8)) => if !starts_with(name, "dead_"@) && strip_trailing(utf8, '\0').len() > 0 {
                lemma_append_lists(a.0, strip_trailing(utf8, '\0'), single_view(code, mods), target, ks);
                lists(a.0, target, ks)
            } else {
                true
            },
            None => true,
        };
        if from_pre {
            lemma_key_fold_from(acc, code, kc, syms, (n - 1) as nat, target, ks);
        } else {
            assert(sym_gives(syms, lvl, code, target, ks));
        }
    }
}

proof fn lemma_key_fold_deads(acc: LinuxAcc, code: Seq<char>, kc: u32, syms: Seq<Option<(Seq<char>, Seq<char>)>>, n: nat, p: int)
    requires
        n <= 4,
        0 <= p < key_fold(acc, code, kc, syms, n).1.len(),
    ensures
        (p < acc.1.len() && key_fold(acc, code, kc, syms, n).1[p] == acc.1[p])
            || exists|lvl: int| lvl < n && sym_dead(syms, lvl, kc, key_fold(acc, code, kc, syms, n).1[p]),
    decreases n,
{
    if n > 0 {
        let a = key_fold(acc, code, kc, syms, (n - 1) as nat);
        let r = key_fold(acc, code, kc, syms, n);
        let lvl = n - 1;
        if p < a.1.len() {
            assert(r.1[p] == a.1[p]);
            lemma_key_fold_deads(acc, code, kc, syms, (n - 1) as nat, p);
        } else {
            assert(sym_dead(syms, lvl, kc, r.1[p]));
        }
    }
}

proof fn lemma_linux_sourced(keys: Seq<(u32, Seq<Option<(Seq<char>, Seq<char>)>>)>, t: Seq<W3cKeyView>)
    ensures
        linux_sourced(keys, t),
    decreases t.len(),
{
    let st = linux_fold(keys, t);
    if t.len() == 0 {
        assert forall|target: Seq<char>, ks: KeystrokeView| #[trigger] lists(st.0, target, ks)
            implies some_level_gives(keys, t, target, ks) by {
            assert(crate::strmap::assoc_get(st.0, target) is None);
        }
        assert(linux_sourced(keys, t));
    } else {
        let pre = t.drop_last();
        let i = t.len() - 1;
        let a = linux_fold(keys, pre);
        let n = probed_levels(keys[i].0);
        lemma_linux_sourced(keys, pre);
        lemma_linux_fold_ok(keys, pre);
        assert forall|target: Seq<char>, ks: KeystrokeView| #[trigger] lists(st.0, target, ks)
            implies some_level_gives(keys, t, target, ks) by {
            lemma_key_fold_from(a, t[i].code, t[i].linux_keycode, keys[i].1, n, target, ks);
            if lists(a.0, target, ks) {
                let (k, lvl) = choose|k: int, lvl: int| level_gives(keys, pre, k, lvl, target, ks);
                assert(pre[k] == t[k]);
                assert(level_gives(keys, t, k, lvl, target, ks));
            } else {
                let lvl = choose|lvl: int| lvl < n && sym_gives(keys[i].1, lvl, t[i].code, target, ks);
                assert(level_gives(keys, t, i, lvl, target, ks));
            }
        }
        assert forall|p: int| 0 <= p < st.1.len() implies some_level_dead(keys, t, #[trigger] st.1[p]) by {
            lemma_key_fold_deads(a, t[i].code, t[i].linux_keycode, keys[i].1, n, p);
            if p < a.1.len() && st.1[p] == a.1[p] {
                let (k, lvl) = choose|k: int, lvl: int| level_dead(keys, pre, k, lvl, a.1[p]);
                assert(pre[k] == t[k]);
                assert(level_dead(keys, t, k, lvl, st.1[p]));
            } else {
                let lvl = choose|lvl: int| lvl < n && sym_dead(keys[i].1, lvl, t[i].linux_keycode, st.1[p]);
                assert(level_dead(keys, t, i, lvl, st.1[p]));
            }
        }
        assert(linux_sourced(keys, t));
    }
}

/// Key `j` of `t` is another key than `kc`, what the dead key composes with it is the
/// non-empty `target`, and `ks` presses the dead key (code `dcode`, modifiers `dmods`), then
/// key `j`.
pub open spec fn dead_out(
    outs: Seq<Option<Seq<char>>>,
    t: Seq<W3cKeyView>,
    j: int,
    kc: u32,
    dmods: Seq<Seq<char>>,
    dcode: Seq<char>,
    target: Seq<char>,
    ks: KeystrokeView,
) -> bool {
    &&& 0 <= j < t.len()
    &&& t[j].linux_keycode != kc
    &&& outs[j] == Some(target)
    &&& target.len() > 0
    &&& ks == dead_key_view(dcode, dmods, t[j].code, seq![])
}

/// Dead key `p` of `deads` is a W3C key, and with key `j` it composes `target`, typed by `ks`.
pub open spec fn comp_gives(
    deads: Seq<(u32, Seq<Seq<char>>)>,
    outs: Seq<Seq<Option<Seq<char>>>>,
    p: int,
    j: int,
    target: Seq<char>,
    ks: KeystrokeView,
) -> bool {
    let t = w3c_table();
    &&& 0 <= p < deads.len()
    &&& linux_pos(t, deads[p].0) < t.len()
    &&& dead_out(outs[p], t, j, deads[p].0, deads[p].1, t[linux_pos(t, deads[p].0) as int].code, target, ks)
}

proof fn lemma_compose_dead_distinct(
    ms: Seq<(Seq<char>, Seq<KeystrokeView>)>,
    kc: u32,
    dmods: Seq<Seq<char>>,
    dcode: Seq<char>,
    outs: Seq<Option<Seq<char>>>,
    t: Seq<W3cKeyView>,
)
    requires
        keys_distinct(ms),
    ensures
        keys_distinct(compose_dead_fold(ms, kc, dmods, dcode, outs, t)),
    decreases t.len(),
{
    if t.len() > 0 {
        let j = t.len() - 1;
        lemma_compose_dead_distinct(ms, kc, dmods, dcode, outs, t.drop_last());
        let m = compose_dead_fold(ms, kc, dmods, dcode, outs, t.drop_last());
        if let Some(o) = outs[j] {
            let x = dead_key_view(dcode, dmods, t[j].code, seq![]);
            lemma_append_lists(m, o, x, o, x);
        }
    }
}

proof fn lemma_compositions_distinct(
    ms: Seq<(Seq<char>, Seq<KeystrokeView>)>,
    deads: Seq<(u32, Seq<Seq<char>>)>,
    outs: Seq<Seq<Option<Seq<char>>>>,
)
    requires
        keys_distinct(ms),
    ensures
        keys_distinct(compositions_fold(ms, deads, outs)),
    decreases deads.len(),
{
    if deads.len() > 0 {
        let i = deads.len() - 1;
        lemma_compositions_distinct(ms, deads.drop_last(), outs);
        let p = linux_pos(w3c_table(), deads[i].0);
        if p < w3c_table().len() {
            lemma_compose_dead_distinct(
                compositions_fold(ms, deads.drop_last(), outs),
                deads[i].0,
                deads[i].1,
                w3c_table()[p as int].code,
                outs[i],
                w3c_table(),
            );
        }
    }
}

proof fn lemma_compose_dead_from(
    ms: Seq<(Seq<char>, Seq<KeystrokeView>)>,
    kc: u32,
    dmods: Seq<Seq<char>>,
    dcode: Seq<char>,
    outs: Seq<Option<Seq<char>>>,
    t: Seq<W3cKeyView>,
    target: Seq<char>,
    ks: KeystrokeView,
)
    requires
        keys_distinct(ms),
        lists(compose_dead_fold(ms, kc, dmods, dcode, outs, t), target, ks),
    ensures
        lists(ms, target, ks) || exists|j: int| dead_out(outs, t, j, kc, dmods, dcode, target, ks),
    decreases t.len(),
{
    if t.len() > 0 {
        let j = t.len() - 1;
        let pre = t.drop_last();
        let m = compose_dead_fold(ms, kc, dmods, dcode, outs, pre);
        lemma_compose_dead_distinct(ms, kc, dmods, dcode, outs, pre);
        let from_pre = if t[j].linux_keycode != kc && outs[j] is Some && outs[j]->0.len() > 0 {
            lemma_append_lists(m, outs[j]->0, dead_key_view(dcode, dmods, t[j].code, seq![]), target, ks);
            lists(m, target, ks)
        } else {
            true
        };
        if from_pre {
            lemma_compose_dead_from(ms, kc, dmods, dcode, outs, pre, target, ks);
            if !lists(ms, target, ks) {
                let k = choose|k: int| dead_out(outs, pre, k, kc, dmods, dcode, target, ks);
                assert(pre[k] == t[k]);
                assert(dead_out(outs, t, k, kc, dmods, dcode, target, ks));
            }
        } else {
            assert(dead_out(outs, t, j, kc, dmods, dcode, target, ks));
        }
    }
}

proof fn lemma_compositions_from(
    ms: Seq<(Seq<char>, Seq<KeystrokeView>)>,
    deads: Seq<(u32, Seq<Seq<char>>)>,
    outs: Seq<Seq<Option<Seq<char>>>>,
    target: Seq<char>,
    ks: KeystrokeView,
)
    requires
        keys_distinct(ms),
        lists(compositions_fold(ms, deads, outs), target, ks),
    ensures
        lists(ms, target, ks) || exists|p: int, j: int| comp_gives(deads, outs, p, j, target, ks),
    decreases deads.len(),
{
    if deads.len() > 0 {
        let i = deads.len() - 1;
        let pre = deads.drop_last();
        let m = compositions_fold(ms, pre, outs);
        lemma_compositions_distinct(ms, pre, outs);
        let t = w3c_table();
        let pos = linux_pos(t, deads[i].0);
        let from_pre = if pos < t.len() {
            lemma_compose_dead_from(m, deads[i].0, deads[i].1, t[pos as int].code, outs[i], t, target, ks);
            lists(m, target, ks)
        } else {
            true
        };
        if from_pre {
            lemma_compositions_from(ms, pre, outs, target, ks);
            if !lists(ms, target, ks) {
                let (p, j) = choose|p: int, j: int| comp_gives(pre, outs, p, j, target, ks);
                assert(pre[p] == deads[p]);
                assert(comp_gives(deads, outs, p, j, target, ks));
            }
        } else {
            let j = choose|j: int| dead_out(outs[i], t, j, deads[i].0, deads[i].1, t[pos as int].code, target, ks);
            assert(comp_gives(deads, outs, i, j, target, ks));
        }
    }
}

/// Every alternative the Linux layout lists for a target types it: a queried level of a key
/// whose keysym's text is the target, pressed under the level's modifiers; or a dead key found
/// at a queried level, then another key with which xkbcommon composed the target.
pub proof fn lemma_linux_listed_types(
    keys: Seq<(u32, Seq<Option<(Seq<char>, Seq<char>)>>)>,
    composed: Seq<Seq<Option<Seq<char>>>>,
    target: Seq<char>,
    ks: KeystrokeView,
)
    requires
        lists(compositions_fold(linux_fold(keys, w3c_table()).0, linux_fold(keys, w3c_table()).1, composed), target, ks),
    ensures
        some_level_gives(keys, w3c_table(), target, ks) || exists|p: int, j: int|
            comp_gives(linux_fold(keys, w3c_table()).1, composed, p, j, target, ks)
                && some_level_dead(keys, w3c_table(), linux_fold(keys, w3c_table()).1[p]),
{
    let st = linux_fold(keys, w3c_table());
    lemma_linux_fold_ok(keys, w3c_table());
    lemma_linux_sourced(keys, w3c_table());
    lemma_compositions_from(st.0, st.1, composed, target, ks);
    if !lists(st.0, target, ks) {
        let (p, j) = choose|p: int, j: int| comp_gives(st.1, composed, p, j, target, ks);
        assert(some_level_dead(keys, w3c_table(), st.1[p]));
    }
}

proof fn lemma_level_step_keeps(
    acc: LinuxAcc,
    code: Seq<char>,
    kc: u32,
    mods: Seq<Seq<char>>,
    sym: Option<(Seq<char>, Seq<char>)>,
    target: Seq<char>,
    ks: KeystrokeView,
    d: (u32, Seq<Seq<char>>),
)
    requires
        keys_distinct(acc.0),
    ensures
        lists(acc.0, target, ks) ==> lists(level_step(acc, code, kc, mods, sym).0, target, ks),
        acc.1.contains(d) ==> level_step(acc, code, kc, mods, sym).1.contains(d),
{
    let r = level_step(acc, code, kc, mods, sym);
    if let Some((name, utf8)) = sym {
        if !starts_with(name, "dead_"@) && strip_trailing(utf8, '\0').len() > 0 {
            lemma_append_lists(acc.0, strip_trailing(utf8, '\0'), single_view(code, mods), target, ks);
        }
        if acc.1.contains(d) {
            let k = choose|k: int| 0 <= k < acc.1.len() && acc.1[k] == d;
            assert(r.1[k] == d);
        }
    }
}

proof fn lemma_key_fold_keeps(
    acc: LinuxAcc,
    code: Seq<char>,
    kc: u32,
    syms: Seq<Option<(Seq<char>, Seq<char>)>>,
    n: nat,
    target: Seq<char>,
    ks: KeystrokeView,
    d: (u32, Seq<Seq<char>>),
)
    requires
        linux_acc_ok(acc),
        n <= 4,
    ensures
        lists(acc.0, target, ks) ==> lists(key_fold(acc, code, kc, syms, n).0, target, ks),
        acc.1.contains(d) ==> key_fold(acc, code, kc, syms, n).1.contains(d),
    decreases n,
{
    if n > 0 {
        lemma_key_fold_keeps(acc, code, kc, syms, (n - 1) as nat, target, ks, d);
        lemma_key_fold_ok(acc, code, kc, syms, (n - 1) as nat);
        lemma_level_step_keeps(key_fold(acc, code, kc, syms, (n - 1) as nat), code, kc, linux_levels()[n - 1].1, syms[n - 1], target, ks, d);
    }
}

proof fn lemma_key_fold_lists(
    acc: LinuxAcc,
    code: Seq<char>,
    kc: u32,
    syms: Seq<Option<(Seq<char>, Seq<char>)>>,
    n: nat,
    lvl: int,
    target: Seq<char>,
    ks: KeystrokeView,
    d: (u32, Seq<Seq<char>>),
)
    requires
        linux_acc_ok(acc),
        n <= 4,
        0 <= lvl < n,
    ensures
        sym_gives(syms, lvl, code, target, ks) ==> lists(key_fold(acc, code, kc, syms, n).0, target, ks),
        sym_dead(syms, lvl, kc, d) ==> key_fold(acc, code, kc, syms, n).1.contains(d),
    decreases n,
{
    let a = key_fold(acc, code, kc, syms, (n - 1) as nat);
    lemma_key_fold_ok(acc, code, kc, syms, (n - 1) as nat);
    if lvl == n - 1 {
        let r = key_fold(acc, code, kc, syms, n);
        if sym_gives(syms, lvl, code, target, ks) {
            lemma_append_lists(a.0, target, ks, target, ks);
        }
        if sym_dead(syms, lvl, kc, d) && !a.1.contains(d) {
            assert(r.1[r.1.len() - 1] == d);
        }
    } else {
        lemma_key_fold_lists(acc, code, kc, syms, (n - 1) as nat, lvl, target, ks, d);
        lemma_level_step_keeps(a, code, kc, linux_levels()[n - 1].1, syms[n - 1], target, ks, d);
    }
}

proof fn lemma_linux_fold_lists(
    keys: Seq<(u32, Seq<Option<(Seq<char>, Seq<char>)>>)>,
    t: Seq<W3cKeyView>,
    i: int,
    lvl: int,
    target: Seq<char>,
    ks: KeystrokeView,
    d: (u32, Seq<Seq<char>>),
)
    requires
        0 <= i < t.len(),
        0 <= lvl < probed_levels(keys[i].0),
    ensures
        level_gives(keys, t, i, lvl, target, ks) ==> lists(linux_fold(keys, t).0, target, ks),
        level_dead(keys, t, i, lvl, d) ==> linux_fold(keys, t).1.contains(d),
    decreases t.len(),
{
    let pre = t.drop_last();
    let last = t.len() - 1;
    let a = linux_fold(keys, pre);
    lemma_linux_fold_ok(keys, pre);
    if i == last {
        lemma_key_fold_lists(a, t[i].code, t[i].linux_keycode, keys[i].1, probed_levels(keys[i].0), lvl, target, ks, d);
    } else {
        assert(pre[i] == t[i]);
        lemma_linux_fold_lists(keys, pre, i, lvl, target, ks, d);
        lemma_key_fold_keeps(a, t[last].code, t[last].linux_keycode, keys[last].1, probed_levels(keys[last].0), target, ks, d);
    }
}

proof fn lemma_compose_dead_keeps(
    ms: Seq<(Seq<char>, Seq<KeystrokeView>)>,
    kc: u32,
    dmods: Seq<Seq<char>>,
    dcode: Seq<char>,
    outs: Seq<Option<Seq<char>>>,
    t: Seq<W3cKeyView>,
    target: Seq<char>,
    ks: KeystrokeView,
)
    requires
        keys_distinct(ms),
        lists(ms, target, ks),
    ensures
        lists(compose_dead_fold(ms, kc, dmods, dcode, outs, t), target, ks),
    decreases t.len(),
{
    if t.len() > 0 {
        let j = t.len() - 1;
        lemma_compose_dead_keeps(ms, kc, dmods, dcode, outs, t.drop_last(), target, ks);
        lemma_compose_dead_distinct(ms, kc, dmods, dcode, outs, t.drop_last());
        let m = compose_dead_fold(ms, kc, dmods, dcode, outs, t.drop_last());
        if let Some(o) = outs[j] {
            lemma_append_lists(m, o, dead_key_view(dcode, dmods, t[j].code, seq![]), target, ks);
        }
    }
}

proof fn lemma_compose_dead_lists(
    ms: Seq<(Seq<char>, Seq<KeystrokeView>)>,
    kc: u32,
    dmods: Seq<Seq<char>>,
    dcode: Seq<char>,
    outs: Seq<Option<Seq<char>>>,
    t: Seq<W3cKeyView>,
    j: int,
    target: Seq<char>,
    ks: KeystrokeView,
)
    requires
        keys_distinct(ms),
        dead_out(outs, t, j, kc, dmods, dcode, target, ks),
    ensures
        lists(compose_dead_fold(ms, kc, dmods, dcode, outs, t), target, ks),
    decreases t.len(),
{
    let pre = t.drop_last();
    let m = compose_dead_fold(ms, kc, dmods, dcode, outs, pre);
    lemma_compose_dead_distinct(ms, kc, dmods, dcode, outs, pre);
    if j == t.len() - 1 {
        lemma_append_lists(m, target, ks, target, ks);
    } else {
        assert(pre[j] == t[j]);
        lemma_compose_dead_lists(ms, kc, dmods, dcode, outs, pre, j, target, ks);
        let last = t.len() - 1;
        if let Some(o) = outs[last] {
            lemma_append_lists(m, o, dead_key_view(dcode, dmods, t[last].code, seq![]), target, ks);
        }
    }
}

proof fn lemma_compositions_lists(
    ms: Seq<(Seq<char>, Seq<KeystrokeView>)>,
    deads: Seq<(u32, Seq<Seq<char>>)>,
    outs: Seq<Seq<Option<Seq<char>>>>,
    p: int,
    j: int,
    target: Seq<char>,
    ks: KeystrokeView,
)
    requires
        keys_distinct(ms),
        comp_gives(deads, outs, p, j, target, ks),
    ensures
        lists(compositions_fold(ms, deads, outs), target, ks),
    decreases deads.len(),
{
    let t = w3c_table();
    let pre = deads.drop_last();
    let i = deads.len() - 1;
    let m = compositions_fold(ms, pre, outs);
    lemma_compositions_distinct(ms, pre, outs);
    let pos = linux_pos(t, deads[i].0);
    if p == i {
        lemma_compose_dead_lists(m, deads[i].0, deads[i].1, t[pos as int].code, outs[i], t, j, target, ks);
    } else {
        assert(pre[p] == deads[p]);
        lemma_compositions_lists(ms, pre, outs, p, j, target, ks);
        if pos < t.len() {
            lemma_compose_dead_keeps(m, deads[i].0, deads[i].1, t[pos as int].code, outs[i], t, target, ks);
        }
    }
}

/// Everything xkbcommon reports is kept: each queried level of a key whose keysym (no dead key)
/// has a non-empty text is listed for that text, each dead keysym at a queried level is
/// recorded as a dead key, and each non-empty text composed by a recorded dead key with
/// another key is listed for that text.
pub proof fn lemma_linux_reports_listed(
    keys: Seq<(u32, Seq<Option<(Seq<char>, Seq<char>)>>)>,
    composed: Seq<Seq<Option<Seq<char>>>>,
    i: int,
    lvl: int,
    p: int,
    j: int,
    target: Seq<char>,
    ks: KeystrokeView,
    d: (u32, Seq<Seq<char>>),
)
    ensures
        level_gives(keys, w3c_table(), i, lvl, target, ks) ==> lists(
            compositions_fold(linux_fold(keys, w3c_table()).0, linux_fold(keys, w3c_table()).1, composed),
            target,
            ks,
        ),
        level_dead(keys, w3c_table(), i, lvl, d) ==> linux_fold(keys, w3c_table()).1.contains(d),
        comp_gives(linux_fold(keys, w3c_table()).1, composed, p, j, target, ks) ==> lists(
            compositions_fold(linux_fold(keys, w3c_table()).0, linux_fold(keys, w3c_table()).1, composed),
            target,
            ks,
        ),
{
    let t = w3c_table();
    let st = linux_fold(keys, t);
    lemma_linux_fold_ok(keys, t);
    if 0 <= i < t.len() && 0 <= lvl < probed_levels(keys[i].0) {
        lemma_linux_fold_lists(keys, t, i, lvl, target, ks, d);
        if level_gives(keys, t, i, lvl, target, ks) {
            lemma_compositions_keeps(st.0, st.1, composed, target, ks);
        }
    }
    if comp_gives(st.1, composed, p, j, target, ks) {
        lemma_compositions_lists(st.0, st.1, composed, p, j, target, ks);
    }
}

proof fn lemma_compositions_keeps(
    ms: Seq<(Seq<char>, Seq<KeystrokeView>)>,
    deads: Seq<(u32, Seq<Seq<char>>)>,
    outs: Seq<Seq<Option<Seq<char>>>>,
    target: Seq<char>,
    ks: KeystrokeView,
)
    requires
        keys_distinct(ms),
        lists(ms, target, ks),
    ensures
        lists(compositions_fold(ms, deads, outs), target, ks),
    decreases deads.len(),
{
    if deads.len() > 0 {
        let i = deads.len() - 1;
        let pre = deads.drop_last();
        lemma_compositions_keeps(ms, pre, outs, target, ks);
        lemma_compositions_distinct(ms, pre, outs);
        let pos = linux_pos(w3c_table(), deads[i].0);
        if pos < w3c_table().len() {
            lemma_compose_dead_keeps(compositions_fold(ms, pre, outs), deads[i].0, deads[i].1, w3c_table()[pos as int].code, outs[i], w3c_table(), target, ks);
        }
    }
}

/// Every level below both the key's level count and four is queried, so a key with four levels
/// or more is queried at all four. A keysym that is no dead key at such a level, with non-empty
/// text once trailing NUL characters are dropped, is listed (in the first stage and in the
/// layout) under that text as the key pressed with the level's modifiers: none, `Shift`,
/// `AltGraph`, then `Shift` and `AltGraph`; a dead keysym there is recorded as that key under
/// those modifiers.
pub proof fn lemma_linux_all_levels_queried(
    keys: Seq<(u32, Seq<Option<(Seq<char>, Seq<char>)>>)>,
    composed: Seq<Seq<Option<Seq<char>>>>,
    i: int,
    lvl: int,
)
    requires
        0 <= i < w3c_table().len(),
        0 <= lvl < 4,
        lvl < keys[i].0,
        keys[i].1[lvl] is Some,
    ensures
        ({
            let (name, utf8) = keys[i].1[lvl]->0;
            let text = strip_trailing(utf8, '\0');
            let mods: Seq<Seq<char>> = if lvl == 0 {
                seq![]
            } else if lvl == 1 {
                seq!["Shift"@]
            } else if lvl == 2 {
                seq!["AltGraph"@]
            } else {
                seq!["Shift"@, "AltGraph"@]
            };
            let st = linux_fold(keys, w3c_table());
            let ks = single_view(w3c_table()[i].code, mods);
            &&& (!starts_with(name, "dead_"@) && text.len() > 0) ==> lists(st.0, text, ks)
                && lists(compositions_fold(st.0, st.1, composed), text, ks)
            &&& starts_with(name, "dead_"@) ==> st.1.contains((w3c_table()[i].linux_keycode, mods))
        }),
{
    let (name, utf8) = keys[i].1[lvl]->0;
    let text = strip_trailing(utf8, '\0');
    let mods: Seq<Seq<char>> = if lvl == 0 {
        seq![]
    } else if lvl == 1 {
        seq!["Shift"@]
    } else if lvl == 2 {
        seq!["AltGraph"@]
    } else {
        seq!["Shift"@, "AltGraph"@]
    };
    assert(linux_levels()[lvl].1 == mods);
    assert(lvl < probed_levels(keys[i].0));
    let ks = single_view(w3c_table()[i].code, mods);
    let d = (w3c_table()[i].linux_keycode, mods);
    lemma_linux_fold_lists(keys, w3c_table(), i, lvl, text, ks, d);
    lemma_linux_reports_listed(keys, composed, i, lvl, 0, 0, text, ks, d);
}

} // verus!
