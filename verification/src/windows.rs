//! Windows extraction: each W3C key's virtual key (from its scancode) is translated under
//! each probed modifier state. The translation itself is not implemented: it gives nothing, so
//! Windows layouts come out without mappings.
use vstd::prelude::*;

use crate::model::{Keystroke, LayoutFile, LayoutMetadata};
use crate::strmap::StrMap;
use crate::w3c_keys::{w3c_keys, w3c_table};

verus! {

/// The four modifier states probed on Windows.
#[derive(Debug, Clone, Copy, PartialEq, Eq)]
pub enum ModState {
    Unmodified,
    Shift,
    AltGraph,
    ShiftAltGr,
}

impl ModState {
    /// The W3C modifiers of the state; Windows AltGr (sent as Ctrl+Alt) is the W3C `AltGraph`.
    pub fn w3c_modifiers(self) -> (r: Vec<String>)
        ensures
            r.deep_view() == match self {
                ModState::Unmodified => Seq::<Seq<char>>::empty(),
                ModState::Shift => seq!["Shift"@],
                ModState::AltGraph => seq!["AltGraph"@],
                ModState::ShiftAltGr => seq!["Shift"@, "AltGraph"@],
            },
    {
        let mut r: Vec<String> = Vec::new();
        match self {
            ModState::Unmodified => {},
            ModState::Shift => {
                r.push("Shift".to_owned());
            },
            ModState::AltGraph => {
                r.push("AltGraph".to_owned());
            },
            ModState::ShiftAltGr => {
                r.push("Shift".to_owned());
                r.push("AltGraph".to_owned());
            },
        }
        assert(r.deep_view() =~= match self {
            ModState::Unmodified => Seq::<Seq<char>>::empty(),
            ModState::Shift => seq!["Shift"@],
            ModState::AltGraph => seq!["AltGraph"@],
            ModState::ShiftAltGr => seq!["Shift"@, "AltGraph"@],
        });
        r
    }

    /// The virtual keys held down for the state: `VK_SHIFT` (0x10), `VK_CONTROL` (0x11) and
    /// `VK_MENU` (0x12); AltGr is Ctrl+Alt.
    pub fn key_states(self) -> (r: Vec<u16>)
        ensures
            r@ == match self {
                ModState::Unmodified => Seq::<u16>::empty(),
                ModState::Shift => seq![0x10u16],
                ModState::AltGraph => seq![0x11u16, 0x12u16],
                ModState::ShiftAltGr => seq![0x10u16, 0x11u16, 0x12u16],
            },
    {
        let mut r: Vec<u16> = Vec::new();
        match self {
            ModState::Unmodified => {},
            ModState::Shift => {
                r.push(0x10);
            },
            ModState::AltGraph => {
                r.push(0x11);
                r.push(0x12);
            },
            ModState::ShiftAltGr => {
                r.push(0x10);
                r.push(0x11);
                r.push(0x12);
            },
        }
        assert(r@ =~= match self {
            ModState::Unmodified => Seq::<u16>::empty(),
            ModState::Shift => seq![0x10u16],
            ModState::AltGraph => seq![0x11u16, 0x12u16],
            ModState::ShiftAltGr => seq![0x10u16, 0x11u16, 0x12u16],
        });
        r
    }
}

/// The translation of virtual key `vk` under `mstate` with keyboard layout `hkl`; not
/// implemented (it needs per-key input sequencing), so it gives nothing.
pub fn translate(vk: u16, hkl: usize, mstate: ModState) -> (r: Option<String>)
    ensures
        r is None,
{
    None
}

/// The Windows layout `layout`/`variant`, given the virtual key of each W3C key (0 for a
/// scancode without one) and the keyboard layout handle: every translated text of a key with a
/// virtual key gets its single press.
pub fn windows_layout(
    layout: &str,
    variant: Option<&str>,
    extracted_on: String,
    hkl: usize,
    vks: &Vec<u16>,
) -> (l: LayoutFile)
    requires
        vks@.len() == w3c_table().len(),
    ensures
        l.mappings.pairs().len() == 0,
        l@.metadata.platform == "windows"@,
        l@.metadata.layout_name == layout@,
        l@.metadata.layout_variant == crate::model::opt_str_view(variant),
        l@.metadata.display_name is None,
        l@.metadata.extracted_on == extracted_on@,
{
    let table = w3c_keys();
    let mut mappings: StrMap<Vec<Keystroke>> = StrMap::new();
    for i in 0..vks.len()
        invariant
            table.deep_view() == w3c_table(),
            mappings.pairs().len() == 0,
    {
        let vk = vks[i];
        if vk != 0 {
            let states = [ModState::Unmodified, ModState::Shift, ModState::AltGraph, ModState::ShiftAltGr];
            for j in 0..4
                invariant
                    mappings.pairs().len() == 0,
            {
                match translate(vk, hkl, states[j]) {
                    Some(out) => {
                        mappings.push_to(out, Keystroke::single(table[i].code, states[j].w3c_modifiers()));
                    },
                    None => {},
                }
            }
        }
    }
    LayoutFile {
        metadata: LayoutMetadata {
            platform: "windows".to_owned(),
            layout_name: layout.to_owned(),
            layout_variant: match variant {
                Some(v) => Some(v.to_owned()),
                None => None,
            },
            display_name: None,
            extracted_on,
        },
        mappings,
    }
}

} // verus!
