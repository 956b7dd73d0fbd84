//! Layout-aware keystroke lookup: key presses, keystroke sequences, layout files and the
//! database that indexes them by platform, layout name and variant.
//!
//! Dead-key compositions are multi-element keystroke sequences: the first element is the
//! dead-modifier key (e.g. `Quote` on a US layout), the second is the base key.
use vstd::prelude::*;
use vstd::string::*;

use crate::strmap::{assoc_append, assoc_get, assoc_insert, assoc_map, keys_distinct, lemma_assoc_insert, lemma_assoc_map_len, lemma_key_pos, StrMap};
use crate::text::str_eq;

verus! {

/// A single key press within a keystroke sequence.
#[derive(Debug, Clone, PartialEq, Eq, Hash)]
pub struct KeyPress {
    /// W3C `KeyboardEvent.code` value, e.g. `KeyA`, `Digit1`, `Quote`.
    pub key: String,
    /// Modifier names from the W3C modifier set: `Shift`, `Control`, `Alt`, `AltGraph`, `Meta`.
    pub modifiers: Vec<String>,
}

/// A key press by the characters of its key and modifiers.
pub struct KeyPressView {
    pub key: Seq<char>,
    pub modifiers: Seq<Seq<char>>,
}

impl DeepView for KeyPress {
    type V = KeyPressView;

    open spec fn deep_view(&self) -> KeyPressView {
        KeyPressView { key: self.key@, modifiers: self.modifiers.deep_view() }
    }
}

impl View for KeyPress {
    type V = KeyPressView;

    open spec fn view(&self) -> KeyPressView {
        self.deep_view()
    }
}

/// A sequence of key presses that together produce a target character.
///
/// Single-element sequences are direct key presses; multi-element sequences model dead-key
/// compositions.
#[derive(Debug, Clone, PartialEq, Eq, Hash)]
pub struct Keystroke {
    /// The ordered list of key presses forming this keystroke.
    pub sequence: Vec<KeyPress>,
}

pub struct KeystrokeView {
    pub sequence: Seq<KeyPressView>,
}

impl DeepView for Keystroke {
    type V = KeystrokeView;

    open spec fn deep_view(&self) -> KeystrokeView {
        KeystrokeView { sequence: self.sequence.deep_view() }
    }
}

impl View for Keystroke {
    type V = KeystrokeView;

    open spec fn view(&self) -> KeystrokeView {
        self.deep_view()
    }
}

/// Top-level metadata block of a layout file.
#[derive(Debug, Clone, PartialEq, Eq)]
pub struct LayoutMetadata {
    /// Origin platform: `windows`, `macos`, `linux`, or `android`.
    pub platform: String,
    /// Layout identifier, e.g. `us`, `fr`, `de` on Linux.
    pub layout_name: String,
    /// Optional layout variant, e.g. `nodeadkeys`, `intl`.
    pub layout_variant: Option<String>,
    /// Optional human-readable display name sourced from the platform.
    pub display_name: Option<String>,
    /// ISO-8601 timestamp marking when the layout was extracted.
    pub extracted_on: String,
}

pub struct LayoutMetadataView {
    pub platform: Seq<char>,
    pub layout_name: Seq<char>,
    pub layout_variant: Option<Seq<char>>,
    pub display_name: Option<Seq<char>>,
    pub extracted_on: Seq<char>,
}

impl DeepView for LayoutMetadata {
    type V = LayoutMetadataView;

    open spec fn deep_view(&self) -> LayoutMetadataView {
        LayoutMetadataView {
            platform: self.platform@,
            layout_name: self.layout_name@,
            layout_variant: self.layout_variant.deep_view(),
            display_name: self.display_name.deep_view(),
            extracted_on: self.extracted_on@,
        }
    }
}

/// The full in-memory representation of a single layout file.
#[derive(Debug, Clone, PartialEq, Eq)]
pub struct LayoutFile {
    /// File metadata.
    pub metadata: LayoutMetadata,
    /// Character/string -> alternative keystroke sequences (the first listed is preferred).
    pub mappings: StrMap<Vec<Keystroke>>,
}

pub struct LayoutFileView {
    pub metadata: LayoutMetadataView,
    pub mappings: Seq<(Seq<char>, Seq<KeystrokeView>)>,
}

impl DeepView for LayoutFile {
    type V = LayoutFileView;

    open spec fn deep_view(&self) -> LayoutFileView {
        LayoutFileView { metadata: self.metadata.deep_view(), mappings: self.mappings.pairs() }
    }
}

impl View for LayoutFile {
    type V = LayoutFileView;

    open spec fn view(&self) -> LayoutFileView {
        self.deep_view()
    }
}

/// Why a key press, keystroke, layout or database load was refused.
#[derive(Debug, Clone, PartialEq, Eq)]
pub enum KeymapError {
    /// A modifier outside the W3C set, on the given key.
    InvalidModifier { modifier: String, key: String },
    /// A keystroke with no key presses.
    EmptySequence,
    /// `metadata.platform` is empty.
    EmptyPlatform,
    /// `metadata.layout_name` is empty.
    EmptyLayoutName,
    /// `metadata.extracted_on` is empty.
    EmptyExtractedOn,
    /// A mapping whose target is the empty string.
    EmptyTarget,
    /// A mapping with no alternatives.
    EmptyAlternatives { target: String },
    /// A database load that was given no layout files.
    NoLayoutFiles,
}

pub enum KeymapErrorView {
    InvalidModifier { modifier: Seq<char>, key: Seq<char> },
    EmptySequence,
    EmptyPlatform,
    EmptyLayoutName,
    EmptyExtractedOn,
    EmptyTarget,
    EmptyAlternatives { target: Seq<char> },
    NoLayoutFiles,
}

impl View for KeymapError {
    type V = KeymapErrorView;

    open spec fn view(&self) -> KeymapErrorView {
        match self {
            KeymapError::InvalidModifier { modifier, key } => KeymapErrorView::InvalidModifier {
                modifier: modifier@,
                key: key@,
            },
            KeymapError::EmptySequence => KeymapErrorView::EmptySequence,
            KeymapError::EmptyPlatform => KeymapErrorView::EmptyPlatform,
            KeymapError::EmptyLayoutName => KeymapErrorView::EmptyLayoutName,
            KeymapError::EmptyExtractedOn => KeymapErrorView::EmptyExtractedOn,
            KeymapError::EmptyTarget => KeymapErrorView::EmptyTarget,
            KeymapError::EmptyAlternatives { target } => KeymapErrorView::EmptyAlternatives {
                target: target@,
            },
            KeymapError::NoLayoutFiles => KeymapErrorView::NoLayoutFiles,
        }
    }
}

/// The keystroke of a single press of `code` under `mods`.
pub open spec fn single_view(code: Seq<char>, mods: Seq<Seq<char>>) -> KeystrokeView {
    KeystrokeView { sequence: seq![KeyPressView { key: code, modifiers: mods }] }
}

/// The keystroke of the dead key `dead_code` under `dead_mods`, then `base_code` under
/// `base_mods`.
pub open spec fn dead_key_view(
    dead_code: Seq<char>,
    dead_mods: Seq<Seq<char>>,
    base_code: Seq<char>,
    base_mods: Seq<Seq<char>>,
) -> KeystrokeView {
    KeystrokeView {
        sequence: seq![
            KeyPressView { key: dead_code, modifiers: dead_mods },
            KeyPressView { key: base_code, modifiers: base_mods },
        ],
    }
}

/// The W3C modifier names recognized by this library.
pub open spec fn is_known_modifier(m: Seq<char>) -> bool {
    m == "Shift"@ || m == "Control"@ || m == "Alt"@ || m == "AltGraph"@ || m == "Meta"@
}

/// Every name in `ms` is a W3C modifier.
pub open spec fn all_known(ms: Seq<Seq<char>>) -> bool {
    forall|i: int| 0 <= i < ms.len() ==> is_known_modifier(#[trigger] ms[i])
}

/// Whether `m` is one of `Shift`, `Control`, `Alt`, `AltGraph`, `Meta`.
pub fn known_modifier(m: &str) -> (b: bool)
    ensures
        b == is_known_modifier(m@),
        b == (m@ == "Shift"@ || m@ == "Control"@ || m@ == "Alt"@ || m@ == "AltGraph"@ || m@ == "Meta"@),
{
    str_eq(m, "Shift") || str_eq(m, "Control") || str_eq(m, "Alt") || str_eq(m, "AltGraph")
        || str_eq(m, "Meta")
}

/// The first modifier of a key press that is not a W3C modifier, as the error it causes.
pub open spec fn keypress_error(kp: KeyPressView) -> Option<KeymapErrorView> {
    modifiers_error(kp.modifiers, kp.key)
}

pub open spec fn modifiers_error(ms: Seq<Seq<char>>, key: Seq<char>) -> Option<KeymapErrorView>
    decreases ms.len(),
{
    if ms.len() == 0 {
        None
    } else if !is_known_modifier(ms[0]) {
        Some(KeymapErrorView::InvalidModifier { modifier: ms[0], key })
    } else {
        modifiers_error(ms.drop_first(), key)
    }
}

pub open spec fn keypresses_error(kps: Seq<KeyPressView>) -> Option<KeymapErrorView>
    decreases kps.len(),
{
    if kps.len() == 0 {
        None
    } else {
        match keypress_error(kps[0]) {
            Some(e) => Some(e),
            None => keypresses_error(kps.drop_first()),
        }
    }
}

/// A keystroke is refused when it is empty, else for its first refused key press.
pub open spec fn keystroke_error(ks: KeystrokeView) -> Option<KeymapErrorView> {
    if ks.sequence.len() == 0 {
        Some(KeymapErrorView::EmptySequence)
    } else {
        keypresses_error(ks.sequence)
    }
}

pub open spec fn keystrokes_error(kss: Seq<KeystrokeView>) -> Option<KeymapErrorView>
    decreases kss.len(),
{
    if kss.len() == 0 {
        None
    } else {
        match keystroke_error(kss[0]) {
            Some(e) => Some(e),
            None => keystrokes_error(kss.drop_first()),
        }
    }
}

/// A mapping is refused for an empty target, an empty alternatives list, or its first refused
/// keystroke.
pub open spec fn mapping_error(target: Seq<char>, alts: Seq<KeystrokeView>) -> Option<KeymapErrorView> {
    if target.len() == 0 {
        Some(KeymapErrorView::EmptyTarget)
    } else if alts.len() == 0 {
        Some(KeymapErrorView::EmptyAlternatives { target })
    } else {
        keystrokes_error(alts)
    }
}

pub open spec fn mappings_error(ms: Seq<(Seq<char>, Seq<KeystrokeView>)>) -> Option<KeymapErrorView>
    decreases ms.len(),
{
    if ms.len() == 0 {
        None
    } else {
        match mapping_error(ms[0].0, ms[0].1) {
            Some(e) => Some(e),
            None => mappings_error(ms.drop_first()),
        }
    }
}

/// A layout is refused for empty metadata fields (platform, layout name, extraction time, in
/// that order), else for its first refused mapping.
pub open spec fn layout_error(l: LayoutFileView) -> Option<KeymapErrorView> {
    if l.metadata.platform.len() == 0 {
        Some(KeymapErrorView::EmptyPlatform)
    } else if l.metadata.layout_name.len() == 0 {
        Some(KeymapErrorView::EmptyLayoutName)
    } else if l.metadata.extracted_on.len() == 0 {
        Some(KeymapErrorView::EmptyExtractedOn)
    } else {
        mappings_error(l.mappings)
    }
}

/// Every modifier of every key press, in every keystroke of every mapping, is a W3C modifier,
/// no keystroke and no alternatives list is empty, and no target is empty.
pub open spec fn layout_valid(l: LayoutFileView) -> bool {
    layout_error(l) is None
}

/// Copy a list of strings.
pub fn clone_strings(v: &Vec<String>) -> (r: Vec<String>)
    ensures
        r.deep_view() == v.deep_view(),
{
    let mut r: Vec<String> = Vec::new();
    for i in 0..v.len()
        invariant
            r.deep_view() == v.deep_view().take(i as int),
    {
        let ghost prev = r.deep_view();
        r.push(v[i].clone());
        assert(r.deep_view() =~= prev.push(v.deep_view()[i as int]));
        assert(v.deep_view().take(i + 1) =~= v.deep_view().take(i as int).push(v.deep_view()[i as int]));
    }
    assert(v.deep_view().take(v.len() as int) =~= v.deep_view());
    r
}

/// Whether two lists of strings are equal.
pub fn strings_eq(a: &Vec<String>, b: &Vec<String>) -> (r: bool)
    ensures
        r == (a.deep_view() == b.deep_view()),
{
    if a.len() != b.len() {
        assert(a.deep_view().len() != b.deep_view().len());
        return false;
    }
    for i in 0..a.len()
        invariant
            a.len() == b.len(),
            forall|j: int| 0 <= j < i ==> a.deep_view()[j] == b.deep_view()[j],
    {
        if a[i] != b[i] {
            assert(a.deep_view()[i as int] != b.deep_view()[i as int]);
            return false;
        }
    }
    assert(a.deep_view() =~= b.deep_view());
    true
}

impl KeyPress {
    /// A bare key press with no modifiers.
    pub fn new(key: &str) -> (kp: KeyPress)
        ensures
            kp@.key == key@,
            kp@.modifiers == Seq::<Seq<char>>::empty(),
    {
        let kp = KeyPress { key: key.to_owned(), modifiers: Vec::new() };
        assert(kp@.modifiers =~= Seq::<Seq<char>>::empty());
        kp
    }

    /// A key press with the given modifiers.
    pub fn with_modifiers(key: &str, modifiers: Vec<String>) -> (kp: KeyPress)
        ensures
            kp@.key == key@,
            kp@.modifiers == modifiers.deep_view(),
    {
        KeyPress { key: key.to_owned(), modifiers }
    }

    /// Check that every modifier is a W3C modifier; the first that is not is reported.
    pub fn validate(&self) -> (r: Result<(), KeymapError>)
        ensures
            r is Ok <==> keypress_error(self@) is None,
            r matches Err(e) ==> keypress_error(self@) == Some(e@),
    {
        let n = self.modifiers.len();
        let ghost ms = self.modifiers.deep_view();
        assert(ms.skip(0) =~= ms);
        for i in 0..n
            invariant
                n == self.modifiers.len(),
                ms == self.modifiers.deep_view(),
                modifiers_error(ms, self.key@) == modifiers_error(ms.skip(i as int), self.key@),
        {
            assert(ms.skip(i as int)[0] == ms[i as int]);
            assert(ms.skip(i as int).drop_first() =~= ms.skip(i + 1));
            if !known_modifier(self.modifiers[i].as_str()) {
                return Err(KeymapError::InvalidModifier {
                    modifier: self.modifiers[i].clone(),
                    key: self.key.clone(),
                });
            }
        }
        assert(ms.skip(n as int) =~= Seq::<Seq<char>>::empty());
        Ok(())
    }
}

impl Keystroke {
    /// A single-press keystroke.
    pub fn single(key: &str, modifiers: Vec<String>) -> (ks: Keystroke)
        ensures
            ks@.sequence == seq![KeyPressView { key: key@, modifiers: modifiers.deep_view() }],
    {
        let mut sequence: Vec<KeyPress> = Vec::new();
        sequence.push(KeyPress::with_modifiers(key, modifiers));
        let ks = Keystroke { sequence };
        assert(ks@.sequence =~= seq![KeyPressView { key: key@, modifiers: modifiers.deep_view() }]);
        ks
    }

    /// A dead-key composition: the dead key first, then the base key.
    pub fn dead_key(
        dead_key: &str,
        dead_modifiers: Vec<String>,
        base_key: &str,
        base_modifiers: Vec<String>,
    ) -> (ks: Keystroke)
        ensures
            ks@.sequence == seq![
                KeyPressView { key: dead_key@, modifiers: dead_modifiers.deep_view() },
                KeyPressView { key: base_key@, modifiers: base_modifiers.deep_view() },
            ],
    {
        let mut sequence: Vec<KeyPress> = Vec::new();
        sequence.push(KeyPress::with_modifiers(dead_key, dead_modifiers));
        sequence.push(KeyPress::with_modifiers(base_key, base_modifiers));
        let ks = Keystroke { sequence };
        assert(ks@.sequence =~= seq![
            KeyPressView { key: dead_key@, modifiers: dead_modifiers.deep_view() },
            KeyPressView { key: base_key@, modifiers: base_modifiers.deep_view() },
        ]);
        ks
    }

    /// Check that the sequence is non-empty and that every key press is valid.
    pub fn validate(&self) -> (r: Result<(), KeymapError>)
        ensures
            r is Ok <==> keystroke_error(self@) is None,
            r matches Err(e) ==> keystroke_error(self@) == Some(e@),
    {
        let n = self.sequence.len();
        if n == 0 {
            return Err(KeymapError::EmptySequence);
        }
        let ghost kps = self.sequence.deep_view();
        assert(kps.skip(0) =~= kps);
        for i in 0..n
            invariant
                n == self.sequence.len(),
                kps == self.sequence.deep_view(),
                keypresses_error(kps) == keypresses_error(kps.skip(i as int)),
        {
            assert(kps.skip(i as int)[0] == kps[i as int]);
            assert(kps.skip(i as int).drop_first() =~= kps.skip(i + 1));
            match self.sequence[i].validate() {
                Ok(()) => {},
                Err(e) => {
                    return Err(e);
                },
            }
        }
        assert(kps.skip(n as int) =~= Seq::<KeyPressView>::empty());
        Ok(())
    }
}

/// Check the keystrokes of one alternatives list, in order.
fn validate_alternatives(alts: &Vec<Keystroke>) -> (r: Result<(), KeymapError>)
    ensures
        r is Ok <==> keystrokes_error(alts.deep_view()) is None,
        r matches Err(e) ==> keystrokes_error(alts.deep_view()) == Some(e@),
{
    let n = alts.len();
    let ghost kss = alts.deep_view();
    assert(kss.skip(0) =~= kss);
    for i in 0..n
        invariant
            n == alts.len(),
            kss == alts.deep_view(),
            keystrokes_error(kss) == keystrokes_error(kss.skip(i as int)),
    {
        assert(kss.skip(i as int)[0] == kss[i as int]);
        assert(kss.skip(i as int).drop_first() =~= kss.skip(i + 1));
        match alts[i].validate() {
            Ok(()) => {},
            Err(e) => {
                return Err(e);
            },
        }
    }
    assert(kss.skip(n as int) =~= Seq::<KeystrokeView>::empty());
    Ok(())
}

impl LayoutFile {
    /// Check the metadata and every mapping, in order; the first problem is reported.
    pub fn validate(&self) -> (r: Result<(), KeymapError>)
        ensures
            r is Ok <==> layout_valid(self@),
            r matches Err(e) ==> layout_error(self@) == Some(e@),
    {
        if self.metadata.platform.as_str().is_empty() {
            return Err(KeymapError::EmptyPlatform);
        }
        if self.metadata.layout_name.as_str().is_empty() {
            return Err(KeymapError::EmptyLayoutName);
        }
        if self.metadata.extracted_on.as_str().is_empty() {
            return Err(KeymapError::EmptyExtractedOn);
        }
        let n = self.mappings.len();
        let ghost ms = self.mappings.pairs();
        assert(ms.skip(0) =~= ms);
        for i in 0..n
            invariant
                n == ms.len(),
                ms == self.mappings.pairs(),
                layout_error(self@) == mappings_error(ms),
                mappings_error(ms) == mappings_error(ms.skip(i as int)),
        {
            assert(ms.skip(i as int)[0] == ms[i as int]);
            assert(ms.skip(i as int).drop_first() =~= ms.skip(i + 1));
            let (target, alts) = self.mappings.entry_at(i);
            if target.as_str().is_empty() {
                return Err(KeymapError::EmptyTarget);
            }
            if alts.len() == 0 {
                return Err(KeymapError::EmptyAlternatives { target: target.clone() });
            }
            match validate_alternatives(alts) {
                Ok(()) => {},
                Err(e) => {
                    return Err(e);
                },
            }
        }
        assert(ms.skip(n as int) =~= Seq::<(Seq<char>, Seq<KeystrokeView>)>::empty());
        Ok(())
    }
}

/// The database key of a platform/layout pair: `platform/name`, with `+variant` appended when
/// a non-empty variant is given.
pub open spec fn index_key_spec(platform: Seq<char>, name: Seq<char>, variant: Option<Seq<char>>) -> Seq<char> {
    if variant is Some && variant->0.len() > 0 {
        platform + seq!['/'] + name + seq!['+'] + variant->0
    } else {
        platform + seq!['/'] + name
    }
}

/// The database key under which a layout with this metadata is stored.
pub open spec fn layout_index_key(m: LayoutMetadataView) -> Seq<char> {
    index_key_spec(m.platform, m.layout_name, m.layout_variant)
}

/// The layout stored under the key of `platform`, `name` and `variant`.
pub open spec fn db_get(
    db: Map<Seq<char>, LayoutFileView>,
    platform: Seq<char>,
    name: Seq<char>,
    variant: Option<Seq<char>>,
) -> Option<LayoutFileView> {
    let k = index_key_spec(platform, name, variant);
    if db.contains_key(k) {
        Some(db[k])
    } else {
        None
    }
}

/// The alternatives for `ch` in the layout stored under `platform`, `name` and `variant`.
pub open spec fn db_lookup(
    db: Map<Seq<char>, LayoutFileView>,
    platform: Seq<char>,
    name: Seq<char>,
    variant: Option<Seq<char>>,
    ch: Seq<char>,
) -> Option<Seq<KeystrokeView>> {
    match db_get(db, platform, name, variant) {
        Some(l) => assoc_get(l.mappings, ch),
        None => None,
    }
}

/// An optional string slice by its characters.
pub open spec fn opt_str_view(v: Option<&str>) -> Option<Seq<char>> {
    match v {
        Some(s) => Some(s@),
        None => None,
    }
}

/// The first layout that is refused, as the error it causes.
pub open spec fn layouts_error(ls: Seq<LayoutFileView>) -> Option<KeymapErrorView>
    decreases ls.len(),
{
    if ls.len() == 0 {
        None
    } else {
        match layout_error(ls[0]) {
            Some(e) => Some(e),
            None => layouts_error(ls.drop_first()),
        }
    }
}

/// The database that results from inserting the layouts in order into an empty one.
pub open spec fn db_of(ls: Seq<LayoutFileView>) -> Map<Seq<char>, LayoutFileView>
    decreases ls.len(),
{
    if ls.len() == 0 {
        Map::empty()
    } else {
        db_of(ls.drop_last()).insert(layout_index_key(ls.last().metadata), ls.last())
    }
}

/// The loaded database: a collection of layout files indexed by platform/layout name.
#[derive(Debug, Clone)]
pub struct KeymapDb {
    layouts: StrMap<LayoutFile>,
}

impl View for KeymapDb {
    type V = Map<Seq<char>, LayoutFileView>;

    open spec fn view(&self) -> Map<Seq<char>, LayoutFileView> {
        assoc_map(self.entries())
    }
}

impl Default for KeymapDb {
    fn default() -> (db: KeymapDb)
        ensures
            db.entries() == Seq::<(Seq<char>, LayoutFileView)>::empty(),
    {
        KeymapDb { layouts: StrMap::new() }
    }
}

impl KeymapDb {
    /// The stored layouts, in insertion order, each with its key.
    pub closed spec fn entries(&self) -> Seq<(Seq<char>, LayoutFileView)> {
        self.layouts.pairs()
    }

    /// An empty database.
    pub fn new() -> (db: KeymapDb)
        ensures
            db.entries() == Seq::<(Seq<char>, LayoutFileView)>::empty(),
            db@ == Map::<Seq<char>, LayoutFileView>::empty(),
    {
        let db = KeymapDb::default();
        assert(db@ =~= Map::<Seq<char>, LayoutFileView>::empty());
        db
    }

    /// The canonical index key for a platform/layout pair: `platform/name`, with `+variant`
    /// appended when a non-empty variant is present.
    pub fn index_key(platform: &str, name: &str, variant: Option<&str>) -> (k: String)
        ensures
            k@ == index_key_spec(platform@, name@, opt_str_view(variant)),
    {
        proof {
            reveal_strlit("/");
            reveal_strlit("+");
        }
        let mut k = platform.to_owned();
        k.append("/");
        k.append(name);
        match variant {
            Some(v) => {
                if !v.is_empty() {
                    k.append("+");
                    k.append(v);
                }
            },
            None => {},
        }
        k
    }

    /// Insert a layout file after validating it; an entry with the same index key is replaced.
    /// Gives back the index key.
    pub fn insert(&mut self, layout: LayoutFile) -> (r: Result<String, KeymapError>)
        ensures
            r is Ok <==> layout_valid(layout@),
            r matches Err(e) ==> layout_error(layout@) == Some(e@) && final(self).entries()
                == old(self).entries(),
            r matches Ok(k) ==> k@ == layout_index_key(layout@.metadata)
                && final(self)@ == old(self)@.insert(k@, layout@),
    {
        match layout.validate() {
            Ok(()) => {},
            Err(e) => {
                return Err(e);
            },
        }
        let variant: Option<&str> = match &layout.metadata.layout_variant {
            Some(v) => Some(v.as_str()),
            None => None,
        };
        let key = KeymapDb::index_key(
            layout.metadata.platform.as_str(),
            layout.metadata.layout_name.as_str(),
            variant,
        );
        let ret = key.clone();
        let _ = self.layouts.insert(key, layout);
        Ok(ret)
    }

    /// Look up a layout by platform and name (no variant).
    pub fn get(&self, platform: &str, name: &str) -> (r: Option<&LayoutFile>)
        ensures
            match r {
                Some(l) => db_get(self@, platform@, name@, None) == Some(l@),
                None => db_get(self@, platform@, name@, None) is None,
            },
    {
        let k = KeymapDb::index_key(platform, name, None);
        self.layouts.get(k.as_str())
    }

    /// Look up a layout including a variant.
    pub fn get_variant(&self, platform: &str, name: &str, variant: Option<&str>) -> (r: Option<&LayoutFile>)
        ensures
            match r {
                Some(l) => db_get(self@, platform@, name@, opt_str_view(variant)) == Some(l@),
                None => db_get(self@, platform@, name@, opt_str_view(variant)) is None,
            },
    {
        let k = KeymapDb::index_key(platform, name, variant);
        self.layouts.get(k.as_str())
    }

    /// All loaded layout index keys, in insertion order; no key occurs twice.
    pub fn keys(&self) -> (ks: Vec<String>)
        ensures
            ks.deep_view() == self.entries().map_values(|p: (Seq<char>, LayoutFileView)| p.0),
            ks.deep_view().no_duplicates(),
    {
        proof {
            use_type_invariant(&self.layouts);
        }
        let ks = self.layouts.keys();
        assert forall|i: int, j: int| 0 <= i < ks.deep_view().len() && 0 <= j < ks.deep_view().len() && i != j
            implies ks.deep_view()[i] != ks.deep_view()[j] by {
            assert(ks.deep_view()[i] == self.entries()[i].0);
            assert(ks.deep_view()[j] == self.entries()[j].0);
        }
        ks
    }

    /// Number of loaded layouts.
    pub fn len(&self) -> (n: usize)
        ensures
            n == self.entries().len(),
            n == self@.dom().len(),
    {
        self.layouts.len()
    }

    /// Whether the database is empty.
    pub fn is_empty(&self) -> (b: bool)
        ensures
            b == (self.entries().len() == 0),
            b == (self@.dom().len() == 0),
    {
        proof {
            use_type_invariant(&self.layouts);
            lemma_assoc_map_len(self.entries());
        }
        self.layouts.is_empty()
    }

    /// Build a database from layout files in the order given (the files of a directory tree,
    /// sorted by path). No files is an error, and so is the first file that fails validation.
    pub fn load_dir(layouts: Vec<LayoutFile>) -> (r: Result<KeymapDb, KeymapError>)
        ensures
            layouts.len() == 0 ==> (r matches Err(e) && e@ == KeymapErrorView::NoLayoutFiles),
            layouts.len() > 0 ==> (r is Ok <==> layouts_error(layouts.deep_view()) is None),
            layouts.len() > 0 ==> (r matches Err(e) ==> layouts_error(layouts.deep_view()) == Some(e@)),
            r matches Ok(db) ==> db@ == db_of(layouts.deep_view()),
    {
        if layouts.len() == 0 {
            return Err(KeymapError::NoLayoutFiles);
        }
        let ghost ls = layouts.deep_view();
        let mut db = KeymapDb::new();
        let mut rest = layouts;
        let mut taken: usize = 0;
        let n = rest.len();
        assert(ls.skip(0) =~= ls);
        assert(ls.take(0) =~= Seq::<LayoutFileView>::empty());
        assert(db@ =~= db_of(ls.take(0)));
        while rest.len() > 0
            invariant
                taken + rest.len() == n,
                n == ls.len(),
                n > 0,
                ls == layouts.deep_view(),
                rest.deep_view() == ls.skip(taken as int),
                layouts_error(ls) == layouts_error(ls.skip(taken as int)),
                db@ == db_of(ls.take(taken as int)),
            decreases rest.len(),
        {
            let layout = rest.remove(0);
            assert(ls.skip(taken as int)[0] == ls[taken as int]);
            assert(ls.skip(taken as int).drop_first() =~= ls.skip(taken + 1));
            assert(rest.deep_view() =~= ls.skip(taken + 1));
            match db.insert(layout) {
                Ok(_) => {},
                Err(e) => {
                    return Err(e);
                },
            }
            assert(ls.take(taken + 1).drop_last() =~= ls.take(taken as int));
            taken += 1;
        }
        assert(ls.take(n as int) =~= ls);
        Ok(db)
    }

    /// The alternative keystroke sequences for `ch` in a platform/layout (no variant).
    pub fn lookup(&self, platform: &str, name: &str, ch: &str) -> (r: Option<&Vec<Keystroke>>)
        ensures
            match r {
                Some(alts) => db_lookup(self@, platform@, name@, None, ch@) == Some(alts.deep_view()),
                None => db_lookup(self@, platform@, name@, None, ch@) is None,
            },
    {
        match self.get(platform, name) {
            Some(l) => l.mappings.get(ch),
            None => None,
        }
    }

    /// The alternatives for `ch` in a platform/layout with an optional variant.
    pub fn lookup_variant(&self, platform: &str, name: &str, variant: Option<&str>, ch: &str) -> (r: Option<&Vec<Keystroke>>)
        ensures
            match r {
                Some(alts) => db_lookup(self@, platform@, name@, opt_str_view(variant), ch@) == Some(alts.deep_view()),
                None => db_lookup(self@, platform@, name@, opt_str_view(variant), ch@) is None,
            },
    {
        match self.get_variant(platform, name, variant) {
            Some(l) => l.mappings.get(ch),
            None => None,
        }
    }
}

/// A layout inserted into the database is found again under its own platform, name and
/// variant, and every character then finds exactly that layout's alternatives.
pub proof fn lemma_lookup_after_insert(db: Map<Seq<char>, LayoutFileView>, l: LayoutFileView, ch: Seq<char>)
    ensures
        db_get(
            db.insert(layout_index_key(l.metadata), l),
            l.metadata.platform,
            l.metadata.layout_name,
            l.metadata.layout_variant,
        ) == Some(l),
        db_lookup(
            db.insert(layout_index_key(l.metadata), l),
            l.metadata.platform,
            l.metadata.layout_name,
            l.metadata.layout_variant,
            ch,
        ) == assoc_get(l.mappings, ch),
{
}

/// Inserting a layout leaves every lookup under a different index key as it was.
pub proof fn lemma_insert_keeps_other_layouts(
    db: Map<Seq<char>, LayoutFileView>,
    l: LayoutFileView,
    platform: Seq<char>,
    name: Seq<char>,
    variant: Option<Seq<char>>,
    ch: Seq<char>,
)
    requires
        index_key_spec(platform, name, variant) != layout_index_key(l.metadata),
    ensures
        db_get(db.insert(layout_index_key(l.metadata), l), platform, name, variant) == db_get(
            db,
            platform,
            name,
            variant,
        ),
        db_lookup(db.insert(layout_index_key(l.metadata), l), platform, name, variant, ch)
            == db_lookup(db, platform, name, variant, ch),
{
}

/// An empty variant is the same as no variant.
pub proof fn lemma_empty_variant_is_no_variant(platform: Seq<char>, name: Seq<char>)
    ensures
        index_key_spec(platform, name, Some(Seq::<char>::empty())) == index_key_spec(platform, name, None),
{
}

/// A single-press keystroke is valid exactly when all its modifiers are W3C modifiers.
pub proof fn lemma_single_valid(key: Seq<char>, mods: Seq<Seq<char>>)
    ensures
        keystroke_error(KeystrokeView { sequence: seq![KeyPressView { key, modifiers: mods }] }) is None
            <==> forall|i: int| 0 <= i < mods.len() ==> is_known_modifier(#[trigger] mods[i]),
{
    let ks = KeystrokeView { sequence: seq![KeyPressView { key, modifiers: mods }] };
    assert(ks.sequence.drop_first() =~= Seq::<KeyPressView>::empty());
    assert(keypresses_error(ks.sequence.drop_first()) is None);
    assert(ks.sequence[0] == KeyPressView { key, modifiers: mods });
    assert(keystroke_error(ks) == keypress_error(ks.sequence[0]));
    lemma_modifiers_error_none(mods, key);
}

/// No modifier error exactly when every modifier is known.
pub proof fn lemma_modifiers_error_none(ms: Seq<Seq<char>>, key: Seq<char>)
    ensures
        modifiers_error(ms, key) is None <==> forall|i: int| 0 <= i < ms.len() ==> is_known_modifier(#[trigger] ms[i]),
    decreases ms.len(),
{
    if ms.len() > 0 {
        lemma_modifiers_error_none(ms.drop_first(), key);
        if modifiers_error(ms, key) is None {
            assert forall|i: int| 0 <= i < ms.len() implies is_known_modifier(#[trigger] ms[i]) by {
                if i > 0 {
                    assert(ms[i] == ms.drop_first()[i - 1]);
                }
            }
        }
        if forall|i: int| 0 <= i < ms.len() ==> is_known_modifier(#[trigger] ms[i]) {
            assert(is_known_modifier(ms[0]));
            assert forall|i: int| 0 <= i < ms.drop_first().len() implies is_known_modifier(#[trigger] ms.drop_first()[i]) by {
                assert(ms.drop_first()[i] == ms[i + 1]);
            }
        }
    }
}

/// Every mapping has a non-empty target, a non-empty alternatives list and only valid
/// keystrokes.
pub open spec fn mappings_ok(ms: Seq<(Seq<char>, Seq<KeystrokeView>)>) -> bool {
    forall|i: int| 0 <= i < ms.len() ==> mapping_error((#[trigger] ms[i]).0, ms[i].1) is None
}

pub proof fn lemma_mappings_ok_no_error(ms: Seq<(Seq<char>, Seq<KeystrokeView>)>)
    requires
        mappings_ok(ms),
    ensures
        mappings_error(ms) is None,
    decreases ms.len(),
{
    if ms.len() > 0 {
        assert(mapping_error(ms[0].0, ms[0].1) is None);
        assert forall|i: int| 0 <= i < ms.drop_first().len() implies mapping_error((#[trigger] ms.drop_first()[i]).0, ms.drop_first()[i].1) is None by {
            assert(ms.drop_first()[i] == ms[i + 1]);
        }
        lemma_mappings_ok_no_error(ms.drop_first());
    }
}

proof fn lemma_keystrokes_push(kss: Seq<KeystrokeView>, ks: KeystrokeView)
    requires
        keystrokes_error(kss) is None,
        keystroke_error(ks) is None,
    ensures
        keystrokes_error(kss.push(ks)) is None,
    decreases kss.len(),
{
    if kss.len() == 0 {
        assert(kss.push(ks) =~= seq![ks]);
        assert(seq![ks].drop_first() =~= Seq::<KeystrokeView>::empty());
    } else {
        assert(kss.push(ks).drop_first() =~= kss.drop_first().push(ks));
        lemma_keystrokes_push(kss.drop_first(), ks);
    }
}

/// Appending a valid keystroke under a non-empty target keeps every mapping valid and the
/// targets distinct.
pub proof fn lemma_append_ok(ms: Seq<(Seq<char>, Seq<KeystrokeView>)>, k: Seq<char>, ks: KeystrokeView)
    requires
        mappings_ok(ms),
        keys_distinct(ms),
        k.len() > 0,
        keystroke_error(ks) is None,
    ensures
        mappings_ok(assoc_append(ms, k, ks)),
        keys_distinct(assoc_append(ms, k, ks)),
{
    lemma_key_pos(ms, k);
    let v = match assoc_get(ms, k) {
        Some(old) => old.push(ks),
        None => seq![ks],
    };
    match assoc_get(ms, k) {
        Some(old) => {
            let p = crate::strmap::key_pos(ms, k);
            assert(mapping_error(ms[p].0, ms[p].1) is None);
            lemma_keystrokes_push(old, ks);
        },
        None => {
            lemma_keystrokes_push(Seq::<KeystrokeView>::empty(), ks);
            assert(Seq::<KeystrokeView>::empty().push(ks) =~= seq![ks]);
        },
    }
    lemma_assoc_insert(ms, k, v);
    let qs = assoc_insert(ms, k, v);
    assert(mapping_error(k, v) is None);
    assert forall|i: int| 0 <= i < qs.len() implies mapping_error((#[trigger] qs[i]).0, qs[i].1) is None by {
        if i < ms.len() && qs[i] == ms[i] {
        } else {
            assert(qs[i] == (k, v));
        }
    }
}

/// A single press is valid when its modifiers are W3C modifiers.
pub proof fn lemma_single_view_valid(code: Seq<char>, mods: Seq<Seq<char>>)
    requires
        forall|i: int| 0 <= i < mods.len() ==> is_known_modifier(#[trigger] mods[i]),
    ensures
        keystroke_error(single_view(code, mods)) is None,
{
    lemma_single_valid(code, mods);
}

/// A dead-key composition is valid when all its modifiers are W3C modifiers.
pub proof fn lemma_dead_key_view_valid(dc: Seq<char>, dm: Seq<Seq<char>>, bc: Seq<char>, bm: Seq<Seq<char>>)
    requires
        forall|i: int| 0 <= i < dm.len() ==> is_known_modifier(#[trigger] dm[i]),
        forall|i: int| 0 <= i < bm.len() ==> is_known_modifier(#[trigger] bm[i]),
    ensures
        keystroke_error(dead_key_view(dc, dm, bc, bm)) is None,
{
    let s = dead_key_view(dc, dm, bc, bm).sequence;
    lemma_modifiers_error_none(dm, dc);
    lemma_modifiers_error_none(bm, bc);
    assert(s.drop_first() =~= seq![KeyPressView { key: bc, modifiers: bm }]);
    assert(s.drop_first().drop_first() =~= Seq::<KeyPressView>::empty());
    assert(keypress_error(s[0]) is None);
    assert(s.drop_first()[0] == KeyPressView { key: bc, modifiers: bm });
    assert(keypress_error(s.drop_first()[0]) is None);
    assert(keypresses_error(s.drop_first().drop_first()) is None);
    assert(keypresses_error(s.drop_first()) is None);
    assert(keypresses_error(s) is None);
}

/// `ks` is among the alternatives listed for `target`.
pub open spec fn lists(ms: Seq<(Seq<char>, Seq<KeystrokeView>)>, target: Seq<char>, ks: KeystrokeView) -> bool {
    match assoc_get(ms, target) {
        Some(alts) => alts.contains(ks),
        None => false,
    }
}

/// Appending an alternative keeps the targets distinct, keeps every alternative already
/// listed, and lists the appended one.
pub proof fn lemma_append_lists(
    ms: Seq<(Seq<char>, Seq<KeystrokeView>)>,
    k: Seq<char>,
    x: KeystrokeView,
    target: Seq<char>,
    ks: KeystrokeView,
)
    requires
        keys_distinct(ms),
    ensures
        keys_distinct(assoc_append(ms, k, x)),
        lists(ms, target, ks) ==> lists(assoc_append(ms, k, x), target, ks),
        lists(assoc_append(ms, k, x), k, x),
        lists(assoc_append(ms, k, x), target, ks) ==> lists(ms, target, ks) || (target == k && ks == x),
{
    let v = match assoc_get(ms, k) {
        Some(old) => old.push(x),
        None => seq![x],
    };
    lemma_assoc_insert(ms, k, v);
    assert(v[v.len() - 1] == x);
    if target == k && lists(ms, target, ks) {
        let old = assoc_get(ms, k)->0;
        let idx = choose|i: int| 0 <= i < old.len() && old[i] == ks;
        assert(v[idx] == ks);
    }
    if target == k && lists(assoc_append(ms, k, x), target, ks) && ks != x {
        let idx = choose|i: int| 0 <= i < v.len() && v[i] == ks;
        let old = assoc_get(ms, k)->0;
        assert(assoc_get(ms, k) is Some);
        assert(old[idx] == ks);
    }
}

/// A database loaded from layouts in order holds a layout under exactly the index keys of the
/// layouts given, and under each key the last layout given with that key.
pub proof fn lemma_db_of_last(ls: Seq<LayoutFileView>, i: int, k: Seq<char>)
    requires
        0 <= i < ls.len(),
    ensures
        db_of(ls).contains_key(k) <==> exists|j: int| 0 <= j < ls.len() && #[trigger] layout_index_key(ls[j].metadata) == k,
        (forall|j: int| i < j < ls.len() ==> #[trigger] layout_index_key(ls[j].metadata) != layout_index_key(ls[i].metadata))
            ==> db_of(ls).contains_key(layout_index_key(ls[i].metadata)) && db_of(ls)[layout_index_key(ls[i].metadata)] == ls[i],
    decreases ls.len(),
{
    let pre = ls.drop_last();
    let last = ls.len() - 1;
    if ls.len() > 1 {
        lemma_db_of_last(pre, if i < last { i } else { 0 }, k);
        if i < last {
            lemma_db_of_last(pre, i, k);
            if forall|j: int| i < j < ls.len() ==> #[trigger] layout_index_key(ls[j].metadata) != layout_index_key(ls[i].metadata) {
                assert(layout_index_key(ls[last].metadata) != layout_index_key(ls[i].metadata));
                assert forall|j: int| i < j < pre.len() implies #[trigger] layout_index_key(pre[j].metadata) != layout_index_key(pre[i].metadata) by {
                    assert(pre[j] == ls[j]);
                    assert(layout_index_key(ls[j].metadata) != layout_index_key(ls[i].metadata));
                }
            }
        }
        if db_of(ls).contains_key(k) && k != layout_index_key(ls[last].metadata) {
            let j = choose|j: int| 0 <= j < pre.len() && #[trigger] layout_index_key(pre[j].metadata) == k;
            assert(pre[j] == ls[j]);
        }
        if exists|j: int| 0 <= j < ls.len() && #[trigger] layout_index_key(ls[j].metadata) == k {
            let j = choose|j: int| 0 <= j < ls.len() && #[trigger] layout_index_key(ls[j].metadata) == k;
            if j < last {
                assert(pre[j] == ls[j]);
                assert(layout_index_key(pre[j].metadata) == k);
            }
        }
    } else {
        assert(pre.len() == 0);
        assert(db_of(pre) == Map::<Seq<char>, LayoutFileView>::empty());
        assert(ls.last() == ls[0]);
        if exists|j: int| 0 <= j < ls.len() && #[trigger] layout_index_key(ls[j].metadata) == k {
            let j = choose|j: int| 0 <= j < ls.len() && #[trigger] layout_index_key(ls[j].metadata) == k;
            assert(j == 0);
        }
        if db_of(ls).contains_key(k) {
            assert(layout_index_key(ls[0].metadata) == k);
        }
    }
}

/// A key press is accepted exactly when every one of its modifiers is `Shift`, `Control`,
/// `Alt`, `AltGraph` or `Meta`; otherwise the refusal names the first modifier that is none of
/// these, with the key.
pub proof fn lemma_keypress_accepts_w3c_modifiers(kp: KeyPressView)
    ensures
        keypress_error(kp) is None <==> forall|i: int| 0 <= i < kp.modifiers.len() ==> (#[trigger] kp.modifiers[i]
            == "Shift"@ || kp.modifiers[i] == "Control"@ || kp.modifiers[i] == "Alt"@ || kp.modifiers[i]
            == "AltGraph"@ || kp.modifiers[i] == "Meta"@),
        keypress_error(kp) is Some ==> exists|j: int| 0 <= j < kp.modifiers.len()
            && !(kp.modifiers[j] == "Shift"@ || kp.modifiers[j] == "Control"@ || kp.modifiers[j] == "Alt"@
                || kp.modifiers[j] == "AltGraph"@ || kp.modifiers[j] == "Meta"@)
            && (forall|i: int| 0 <= i < j ==> (#[trigger] kp.modifiers[i] == "Shift"@ || kp.modifiers[i] == "Control"@
                || kp.modifiers[i] == "Alt"@ || kp.modifiers[i] == "AltGraph"@ || kp.modifiers[i] == "Meta"@))
            && keypress_error(kp) == Some(KeymapErrorView::InvalidModifier { modifier: kp.modifiers[j], key: kp.key }),
{
    lemma_modifiers_error_none(kp.modifiers, kp.key);
    lemma_modifiers_error_first(kp.modifiers, kp.key);
}

proof fn lemma_modifiers_error_first(ms: Seq<Seq<char>>, key: Seq<char>)
    ensures
        modifiers_error(ms, key) is Some ==> exists|j: int| 0 <= j < ms.len() && !is_known_modifier(ms[j])
            && (forall|i: int| 0 <= i < j ==> is_known_modifier(#[trigger] ms[i]))
            && modifiers_error(ms, key) == Some(KeymapErrorView::InvalidModifier { modifier: ms[j], key }),
    decreases ms.len(),
{
    if ms.len() > 0 && is_known_modifier(ms[0]) {
        lemma_modifiers_error_first(ms.drop_first(), key);
        if modifiers_error(ms, key) is Some {
            let j = choose|j: int| 0 <= j < ms.drop_first().len() && !is_known_modifier(ms.drop_first()[j])
                && (forall|i: int| 0 <= i < j ==> is_known_modifier(#[trigger] ms.drop_first()[i]))
                && modifiers_error(ms.drop_first(), key) == Some(KeymapErrorView::InvalidModifier { modifier: ms.drop_first()[j], key });
            assert(ms[j + 1] == ms.drop_first()[j]);
            assert forall|i: int| 0 <= i < j + 1 implies is_known_modifier(#[trigger] ms[i]) by {
                if i > 0 {
                    assert(ms[i] == ms.drop_first()[i - 1]);
                }
            }
        }
    } else if ms.len() > 0 {
        assert(modifiers_error(ms, key) == Some(KeymapErrorView::InvalidModifier { modifier: ms[0], key }));
    }
}

} // verus!
