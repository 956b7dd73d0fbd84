//! The XKB `evdev.lst` rules file, and the record of a batch run that extracts every layout
//! and variant it declares.
//!
//! ```text
//! ! layout
//!   us  English (US)
//!   fr  French
//! ! variant
//!   nodeadkeys  fr: French (no dead keys)
//!   intl        us: English (US, intl., with dead keys)
//! ```
use vstd::prelude::*;
use vstd::string::*;

use crate::clock::{decimal, push_padded};
use crate::strmap::{assoc_append, assoc_get, assoc_insert, assoc_map, keys_distinct, keys_sorted, lemma_assoc_insert, StrMap};
use crate::text::{
    is_ws, lemma_trim_end_prefix, lemma_trim_start, lemma_trim_start_gap, lemma_word_len, word_len,
    strip_leading, strip_leading_chars, strip_trailing, strip_trailing_chars, chars_eq_str, chars_to_string, drop_word, lines, skip_word_from, slice_chars, split_lines,
    split_words, str_chars, trim, trim_chars, trim_start, trim_start_chars, words,
};

verus! {

/// One `(layout, description)` row from the `! layout` section.
#[derive(Debug, Clone, PartialEq, Eq)]
pub struct LayoutEntry {
    pub name: String,
    pub description: String,
}

impl DeepView for LayoutEntry {
    type V = (Seq<char>, Seq<char>);

    open spec fn deep_view(&self) -> (Seq<char>, Seq<char>) {
        (self.name@, self.description@)
    }
}

/// One `(variant, parent_layout, description)` row from the `! variant` section.
#[derive(Debug, Clone, PartialEq, Eq)]
pub struct VariantEntry {
    pub variant: String,
    pub layout: String,
    pub description: String,
}

impl DeepView for VariantEntry {
    type V = (Seq<char>, Seq<char>, Seq<char>);

    open spec fn deep_view(&self) -> (Seq<char>, Seq<char>, Seq<char>) {
        (self.variant@, self.layout@, self.description@)
    }
}

impl VariantEntry {
    /// A copy of the entry.
    pub fn copy(&self) -> (r: VariantEntry)
        ensures
            r.deep_view() == self.deep_view(),
    {
        VariantEntry {
            variant: self.variant.clone(),
            layout: self.layout.clone(),
            description: self.description.clone(),
        }
    }
}

/// The parsed contents of `evdev.lst`: the layout list and the variant list.
#[derive(Debug, Clone, PartialEq, Eq)]
pub struct EvdevList {
    pub layouts: Vec<LayoutEntry>,
    pub variants: Vec<VariantEntry>,
}

/// A rules file without a single layout row.
#[derive(Debug, Clone, Copy, PartialEq, Eq)]
pub enum EvdevError {
    NoLayoutSection,
}

/// The parser's state between lines: the current section name, the layout rows and the
/// variant rows so far.
pub type EvdevState = (Seq<char>, Seq<(Seq<char>, Seq<char>)>, Seq<(Seq<char>, Seq<char>, Seq<char>)>);

/// A description: what follows the first `n` words of `t`, without leading whitespace.
pub open spec fn after_words(t: Seq<char>, n: nat) -> Seq<char>
    decreases n,
{
    if n == 0 {
        trim_start(t)
    } else {
        after_words(drop_word(trim_start(t)), (n - 1) as nat)
    }
}

/// One line of a rules file (trimmed). `!` lines name the section (the text after the `!`
/// characters, trimmed). In the `layout` section a row is a name and a description; in the
/// `variant` section a row is a variant name, the parent layout with a trailing colon, and a
/// description. Blank lines, rows of other sections and rows without a name are skipped.
pub open spec fn evdev_step(st: EvdevState, line: Seq<char>) -> EvdevState {
    let t = trim(line);
    let ws = words(t);
    if t.len() > 0 && t[0] == '!' {
        (trim(strip_leading(t, '!')), st.1, st.2)
    } else if t.len() == 0 {
        st
    } else if st.0 == "layout"@ {
        if ws.len() == 0 || ws[0].len() == 0 {
            st
        } else {
            (st.0, st.1.push((ws[0], after_words(t, 1))), st.2)
        }
    } else if st.0 == "variant"@ {
        if ws.len() < 2 || ws[0].len() == 0 || ws[1].len() == 0 || strip_trailing(ws[1], ':').len() == 0 {
            st
        } else {
            (st.0, st.1, st.2.push((ws[0], strip_trailing(ws[1], ':'), after_words(t, 2))))
        }
    } else {
        st
    }
}

pub open spec fn evdev_fold(ls: Seq<Seq<char>>) -> EvdevState
    decreases ls.len(),
{
    if ls.len() == 0 {
        (seq![], seq![], seq![])
    } else {
        evdev_step(evdev_fold(ls.drop_last()), ls.last())
    }
}

/// A whole rules file: its layout and variant rows, refused when it has no layout row.
pub open spec fn evdev_parse(input: Seq<char>) -> Option<(Seq<(Seq<char>, Seq<char>)>, Seq<(Seq<char>, Seq<char>, Seq<char>)>)> {
    let st = evdev_fold(lines(input));
    if st.1.len() == 0 {
        None
    } else {
        Some((st.1, st.2))
    }
}

/// What follows the first word of `t`, without leading whitespace, by characters.
fn after_first_word(t: &[char]) -> (r: Vec<char>)
    ensures
        r@ == after_words(t@, 1),
{
    let a = trim_start_chars(t);
    assert(a@.skip(0) =~= a@);
    let k = skip_word_from(a.as_slice(), 0);
    let b = slice_chars(a.as_slice(), k, a.len());
    assert(b@ =~= drop_word(a@));
    assert(after_words(b@, 0) == trim_start(b@));
    trim_start_chars(b.as_slice())
}

impl EvdevList {
    pub open spec fn layouts_view(&self) -> Seq<(Seq<char>, Seq<char>)> {
        self.layouts.deep_view()
    }

    pub open spec fn variants_view(&self) -> Seq<(Seq<char>, Seq<char>, Seq<char>)> {
        self.variants.deep_view()
    }

    /// Parse the raw text of an `evdev.lst` (or `base.lst`) rules file.
    pub fn parse(raw: &str) -> (r: Result<EvdevList, EvdevError>)
        ensures
            match r {
                Ok(ev) => evdev_parse(raw@) == Some((ev.layouts_view(), ev.variants_view())),
                Err(_) => evdev_parse(raw@) is None,
            },
    {
        let cs = str_chars(raw);
        let ls = split_lines(cs.as_slice());
        let ghost lsv = ls.deep_view();
        let mut section: Vec<char> = Vec::new();
        let mut layouts: Vec<LayoutEntry> = Vec::new();
        let mut variants: Vec<VariantEntry> = Vec::new();
        assert(lsv.take(0) =~= Seq::<Seq<char>>::empty());
        assert(layouts.deep_view() =~= Seq::<(Seq<char>, Seq<char>)>::empty());
        assert(variants.deep_view() =~= Seq::<(Seq<char>, Seq<char>, Seq<char>)>::empty());
        for i in 0..ls.len()
            invariant
                lsv == ls.deep_view(),
                lsv == lines(raw@),
                (section@, layouts.deep_view(), variants.deep_view()) == evdev_fold(lsv.take(i as int)),
        {
            assert(lsv.take(i + 1).drop_last() =~= lsv.take(i as int));
            assert(lsv.take(i + 1).last() == lsv[i as int]);
            assert(ls[i as int]@ == lsv[i as int]);
            let t = trim_chars(ls[i].as_slice());
            let ws = split_words(t.as_slice());
            let ghost wsv = ws.deep_view();
            let is_layout = chars_eq_str(section.as_slice(), "layout");
            let is_variant = chars_eq_str(section.as_slice(), "variant");
            if t.len() > 0 && t[0] == '!' {
                let u = strip_leading_chars(t.as_slice(), '!');
                section = trim_chars(u.as_slice());
            } else if t.len() == 0 {
            } else if is_layout {
                if ws.len() > 0 && ws[0].len() > 0 {
                    assert(wsv[0] == ws[0]@);
                    let description = after_first_word(t.as_slice());
                    let ghost prev = layouts.deep_view();
                    layouts.push(LayoutEntry {
                        name: chars_to_string(ws[0].as_slice()),
                        description: chars_to_string(description.as_slice()),
                    });
                    assert(layouts.deep_view() =~= prev.push((wsv[0], after_words(t@, 1))));
                } else {
                    assert(ws.len() > 0 ==> wsv[0] == ws[0]@);
                }
            } else if is_variant {
                let ok = ws.len() >= 2 && ws[0].len() > 0 && ws[1].len() > 0;
                if ok {
                    assert(wsv[0] == ws[0]@);
                    assert(wsv[1] == ws[1]@);
                    let layout = strip_trailing_chars(ws[1].as_slice(), ':');
                    if layout.len() > 0 {
                        let rest1 = after_first_word(t.as_slice());
                        let description = after_first_word(rest1.as_slice());
                        assert(after_words(t@, 2) == after_words(rest1@, 1)) by {
                            assert(after_words(t@, 2) == after_words(drop_word(trim_start(t@)), 1));
                            assert(after_words(t@, 1) == after_words(drop_word(trim_start(t@)), 0));
                            assert(after_words(drop_word(trim_start(t@)), 0) == trim_start(drop_word(trim_start(t@))));
                            assert(rest1@ == trim_start(drop_word(trim_start(t@))));
                            assert(after_words(drop_word(trim_start(t@)), 1) == after_words(
                                drop_word(trim_start(drop_word(trim_start(t@)))),
                                0,
                            ));
                            assert(after_words(rest1@, 1) == after_words(drop_word(trim_start(rest1@)), 0));
                            lemma_trim_start_idempotent(drop_word(trim_start(t@)));
                        }
                        let ghost prev = variants.deep_view();
                        variants.push(VariantEntry {
                            variant: chars_to_string(ws[0].as_slice()),
                            layout: chars_to_string(layout.as_slice()),
                            description: chars_to_string(description.as_slice()),
                        });
                        assert(variants.deep_view() =~= prev.push((wsv[0], layout@, after_words(t@, 2))));
                    }
                } else {
                    assert(ws.len() > 0 ==> wsv[0] == ws[0]@);
                    assert(ws.len() > 1 ==> wsv[1] == ws[1]@);
                }
            }
        }
        assert(lsv.take(ls.len() as int) =~= lsv);
        if layouts.len() == 0 {
            return Err(EvdevError::NoLayoutSection);
        }
        Ok(EvdevList { layouts, variants })
    }
}

pub proof fn lemma_trim_start_idempotent(s: Seq<char>)
    ensures
        trim_start(trim_start(s)) == trim_start(s),
    decreases s.len(),
{
    if s.len() > 0 && crate::text::is_ws(s[0]) {
        lemma_trim_start_idempotent(s.drop_first());
    }
}

/// Variants grouped by parent layout: each layout with its variants in order, layouts in the
/// order their first variant appears.
pub open spec fn group_variants(vs: Seq<(Seq<char>, Seq<char>, Seq<char>)>) -> Seq<(Seq<char>, Seq<(Seq<char>, Seq<char>, Seq<char>)>)>
    decreases vs.len(),
{
    if vs.len() == 0 {
        seq![]
    } else {
        assoc_append(group_variants(vs.drop_last()), vs.last().1, vs.last())
    }
}

impl EvdevList {
    /// Group variants by their parent layout: `layout -> [variants]`, each layout's variants in
    /// order, the layouts sorted.
    pub fn variants_by_layout(&self) -> (m: StrMap<Vec<VariantEntry>>)
        ensures
            m.as_map() == assoc_map(group_variants(self.variants_view())),
            keys_sorted(m.pairs()),
    {
        let mut m: StrMap<Vec<VariantEntry>> = StrMap::new();
        let ghost vs = self.variants_view();
        assert(vs.take(0) =~= Seq::<(Seq<char>, Seq<char>, Seq<char>)>::empty());
        for i in 0..self.variants.len()
            invariant
                vs == self.variants_view(),
                m.pairs() == group_variants(vs.take(i as int)),
        {
            assert(vs.take(i + 1).drop_last() =~= vs.take(i as int));
            assert(vs.take(i + 1).last() == vs[i as int]);
            assert(vs[i as int] == self.variants[i as int].deep_view());
            let v = self.variants[i].copy();
            m.push_to(self.variants[i].layout.clone(), v);
        }
        assert(vs.take(self.variants.len() as int) =~= vs);
        m.into_sorted()
    }
}

/// The variants of `layout`, in order.
pub open spec fn variants_of(vs: Seq<(Seq<char>, Seq<char>, Seq<char>)>, layout: Seq<char>) -> Seq<(Seq<char>, Seq<char>, Seq<char>)> {
    vs.filter(|v: (Seq<char>, Seq<char>, Seq<char>)| v.1 == layout)
}

/// Grouping keeps every layout's variants, in their order, and lists only layouts that have
/// variants.
pub proof fn lemma_group_variants(vs: Seq<(Seq<char>, Seq<char>, Seq<char>)>, layout: Seq<char>)
    ensures
        keys_distinct(group_variants(vs)),
        assoc_get(group_variants(vs), layout) == if variants_of(vs, layout).len() > 0 {
            Some(variants_of(vs, layout))
        } else {
            None
        },
    decreases vs.len(),
{
    reveal(Seq::filter);
    if vs.len() > 0 {
        let prev = group_variants(vs.drop_last());
        let last = vs.last();
        lemma_group_variants(vs.drop_last(), layout);
        lemma_group_variants(vs.drop_last(), last.1);
        match assoc_get(prev, last.1) {
            Some(x) => {
                lemma_assoc_insert(prev, last.1, x.push(last));
            },
            None => {
                lemma_assoc_insert(prev, last.1, seq![last]);
            },
        }
        assert(vs.filter(|v: (Seq<char>, Seq<char>, Seq<char>)| v.1 == layout) == if last.1 == layout {
            vs.drop_last().filter(|v: (Seq<char>, Seq<char>, Seq<char>)| v.1 == layout).push(last)
        } else {
            vs.drop_last().filter(|v: (Seq<char>, Seq<char>, Seq<char>)| v.1 == layout)
        });
        if last.1 == layout {
            assert(variants_of(vs.drop_last(), layout).len() == 0 ==> variants_of(vs.drop_last(), layout) =~= Seq::<(Seq<char>, Seq<char>, Seq<char>)>::empty());
            assert(variants_of(vs.drop_last(), layout).len() == 0 ==> seq![last] =~= variants_of(vs.drop_last(), layout).push(last));
        }
    } else {
        assert(variants_of(vs, layout) =~= Seq::<(Seq<char>, Seq<char>, Seq<char>)>::empty());
    }
}

/// The jobs of one layout `l`: the layout itself, then each of its variants in order.
pub open spec fn layout_jobs(l: Seq<char>, vs: Seq<(Seq<char>, Seq<char>, Seq<char>)>) -> Seq<(Seq<char>, Option<Seq<char>>)> {
    seq![(l, None::<Seq<char>>)] + variants_of(vs, l).map_values(|v: (Seq<char>, Seq<char>, Seq<char>)| (l, Some(v.0)))
}

/// The jobs of a batch run over `layouts`, in order.
pub open spec fn batch_jobs_spec(
    layouts: Seq<(Seq<char>, Seq<char>)>,
    vs: Seq<(Seq<char>, Seq<char>, Seq<char>)>,
) -> Seq<(Seq<char>, Option<Seq<char>>)>
    decreases layouts.len(),
{
    if layouts.len() == 0 {
        seq![]
    } else {
        batch_jobs_spec(layouts.drop_last(), vs) + layout_jobs(layouts.last().0, vs)
    }
}

impl EvdevList {
    /// What a batch run extracts, in order: every layout (without variant), each followed by
    /// every variant declared for it, as `(layout, variant)` pairs.
    pub fn batch_jobs(&self) -> (jobs: Vec<(String, Option<String>)>)
        ensures
            jobs.deep_view() == batch_jobs_spec(self.layouts_view(), self.variants_view()),
    {
        let by_layout = self.variants_by_layout();
        let ghost vs = self.variants_view();
        let ghost ls = self.layouts_view();
        let mut jobs: Vec<(String, Option<String>)> = Vec::new();
        assert(ls.take(0) =~= Seq::<(Seq<char>, Seq<char>)>::empty());
        assert(jobs.deep_view() =~= Seq::<(Seq<char>, Option<Seq<char>>)>::empty());
        for i in 0..self.layouts.len()
            invariant
                vs == self.variants_view(),
                ls == self.layouts_view(),
                by_layout.as_map() == assoc_map(group_variants(vs)),
                jobs.deep_view() == batch_jobs_spec(ls.take(i as int), vs),
        {
            assert(ls.take(i + 1).drop_last() =~= ls.take(i as int));
            assert(ls.take(i + 1).last() == ls[i as int]);
            assert(ls[i as int] == self.layouts[i as int].deep_view());
            let name = &self.layouts[i].name;
            let ghost l = name@;
            let ghost before = jobs.deep_view();
            let ghost vl = variants_of(vs, l);
            let ghost f = |v: (Seq<char>, Seq<char>, Seq<char>)| (l, Some(v.0));
            jobs.push((name.clone(), None));
            assert(jobs.deep_view() =~= before + seq![(l, None::<Seq<char>>)]);
            proof {
                lemma_group_variants(vs, l);
            }
            match by_layout.get(name.as_str()) {
                Some(vars) => {
                    assert(vars.deep_view() == vl);
                    assert(vl.take(0).map_values(f) =~= Seq::<(Seq<char>, Option<Seq<char>>)>::empty());
                    for j in 0..vars.len()
                        invariant
                            vars.deep_view() == vl,
                            l == name@,
                            forall|v: (Seq<char>, Seq<char>, Seq<char>)| #[trigger] f(v) == (l, Some(v.0)),
                            jobs.deep_view() == before + seq![(l, None::<Seq<char>>)] + vl.take(j as int).map_values(f),
                    {
                        assert(vl[j as int] == vars[j as int].deep_view());
                        let ghost prev = jobs.deep_view();
                        jobs.push((name.clone(), Some(vars[j].variant.clone())));
                        assert(vl.take(j + 1) =~= vl.take(j as int).push(vl[j as int]));
                        assert(vl.take(j + 1).map_values(f) =~= vl.take(j as int).map_values(f).push(f(vl[j as int])));
                        assert(jobs.deep_view() =~= prev.push((l, Some(vl[j as int].0))));
                        assert(f(vl[j as int]) == (l, Some(vl[j as int].0)));
                        assert(jobs.deep_view() =~= before + seq![(l, None::<Seq<char>>)] + vl.take(j + 1).map_values(f));
                    }
                    assert(vl.take(vars.len() as int) =~= vl);
                },
                None => {
                    assert(vl.len() == 0);
                    assert(vl.map_values(f) =~= Seq::<(Seq<char>, Option<Seq<char>>)>::empty());
                },
            }
            assert(jobs.deep_view() =~= before + layout_jobs(l, vs));
        }
        assert(ls.take(self.layouts.len() as int) =~= ls);
        jobs
    }
}

/// Status of one batch item.
#[derive(Debug, Clone, PartialEq, Eq)]
pub enum BatchStatus {
    /// Wrote the file at `path` with `mappings` mappings.
    Written { mappings: usize, path: String },
    /// The layout/variant failed to compile and was skipped.
    Skipped { error: String },
}

pub enum BatchStatusView {
    Written { mappings: nat, path: Seq<char> },
    Skipped { error: Seq<char> },
}

impl DeepView for BatchStatus {
    type V = BatchStatusView;

    open spec fn deep_view(&self) -> BatchStatusView {
        match self {
            BatchStatus::Written { mappings, path } => BatchStatusView::Written { mappings: *mappings as nat, path: path@ },
            BatchStatus::Skipped { error } => BatchStatusView::Skipped { error: error@ },
        }
    }
}

/// Outcome of extracting a single layout in a batch run.
#[derive(Debug, Clone, PartialEq, Eq)]
pub struct BatchItem {
    pub layout: String,
    pub variant: Option<String>,
    pub status: BatchStatus,
}

pub struct BatchItemView {
    pub layout: Seq<char>,
    pub variant: Option<Seq<char>>,
    pub status: BatchStatusView,
}

impl DeepView for BatchItem {
    type V = BatchItemView;

    open spec fn deep_view(&self) -> BatchItemView {
        BatchItemView { layout: self.layout@, variant: self.variant.deep_view(), status: self.status.deep_view() }
    }
}

impl BatchItem {
    /// A copy of the item.
    pub fn copy(&self) -> (r: BatchItem)
        ensures
            r.deep_view() == self.deep_view(),
    {
        let variant = match &self.variant {
            Some(v) => Some(v.clone()),
            None => None,
        };
        let status = match &self.status {
            BatchStatus::Written { mappings, path } => BatchStatus::Written { mappings: *mappings, path: path.clone() },
            BatchStatus::Skipped { error } => BatchStatus::Skipped { error: error.clone() },
        };
        BatchItem { layout: self.layout.clone(), variant, status }
    }
}

/// Summary of a batch run.
#[derive(Debug, Clone, PartialEq, Eq)]
pub struct BatchSummary {
    pub ok: usize,
    pub skipped: usize,
    pub total_mappings: usize,
    pub failures: Vec<BatchItem>,
}

impl Default for BatchSummary {
    fn default() -> (s: BatchSummary)
        ensures
            s.ok == 0 && s.skipped == 0 && s.total_mappings == 0 && s.failures@.len() == 0,
    {
        BatchSummary { ok: 0, skipped: 0, total_mappings: 0, failures: Vec::new() }
    }
}

/// Whether recording `item` keeps the counters within `usize`.
pub open spec fn record_fits(summary: &BatchSummary, item: &BatchItem) -> bool {
    match item.status {
        BatchStatus::Written { mappings, .. } => summary.ok < usize::MAX && summary.total_mappings + mappings <= usize::MAX,
        BatchStatus::Skipped { .. } => summary.skipped < usize::MAX,
    }
}

/// Count one batch item: a written layout adds to the ok count and the mapping total, a
/// skipped one adds to the skipped count and is kept among the failures.
pub fn record(summary: &mut BatchSummary, item: &BatchItem)
    requires
        record_fits(old(summary), item),
    ensures
        match item.status {
            BatchStatus::Written { mappings, .. } => final(summary).ok == old(summary).ok + 1
                && final(summary).total_mappings == old(summary).total_mappings + mappings
                && final(summary).skipped == old(summary).skipped
                && final(summary).failures.deep_view() == old(summary).failures.deep_view(),
            BatchStatus::Skipped { .. } => final(summary).skipped == old(summary).skipped + 1
                && final(summary).ok == old(summary).ok
                && final(summary).total_mappings == old(summary).total_mappings
                && final(summary).failures.deep_view() == old(summary).failures.deep_view().push(item.deep_view()),
        },
{
    match &item.status {
        BatchStatus::Written { mappings, .. } => {
            summary.ok = summary.ok + 1;
            summary.total_mappings = summary.total_mappings + *mappings;
        },
        BatchStatus::Skipped { .. } => {
            summary.skipped = summary.skipped + 1;
            let ghost prev = summary.failures.deep_view();
            summary.failures.push(item.copy());
            assert(summary.failures.deep_view() =~= prev.push(item.deep_view()));
        },
    }
}

/// The file stem of a layout: `layout`, or `layout+variant`.
pub open spec fn item_stem(layout: Seq<char>, variant: Option<Seq<char>>) -> Seq<char> {
    match variant {
        Some(v) => layout + seq!['+'] + v,
        None => layout,
    }
}

/// The lines listing the skipped items: `\n  stem: error` for each.
pub open spec fn failures_text(fs: Seq<BatchItemView>) -> Seq<char>
    decreases fs.len(),
{
    if fs.len() == 0 {
        seq![]
    } else {
        failures_text(fs.drop_last()) + match fs.last().status {
            BatchStatusView::Skipped { error } => "\n  "@ + item_stem(fs.last().layout, fs.last().variant) + ": "@ + error,
            BatchStatusView::Written { .. } => seq![],
        }
    }
}

/// `N ok, N skipped, N total mappings`, then, when there are failures, a `failed layouts:`
/// line and one line per skipped item.
pub open spec fn summary_text(ok: nat, skipped: nat, total: nat, fs: Seq<BatchItemView>) -> Seq<char> {
    decimal(ok) + " ok, "@ + decimal(skipped) + " skipped, "@ + decimal(total) + " total mappings"@ + if fs.len() > 0 {
        "\nfailed layouts:"@ + failures_text(fs)
    } else {
        seq![]
    }
}

impl BatchSummary {
    /// The summary as text.
    pub fn to_string(&self) -> (r: String)
        ensures
            r@ == summary_text(self.ok as nat, self.skipped as nat, self.total_mappings as nat, self.failures.deep_view()),
    {
        let mut out = String::new();
        push_padded(&mut out, self.ok as u64, 0);
        out.append(" ok, ");
        push_padded(&mut out, self.skipped as u64, 0);
        out.append(" skipped, ");
        push_padded(&mut out, self.total_mappings as u64, 0);
        out.append(" total mappings");
        let ghost head = out@;
        assert(head == decimal(self.ok as nat) + " ok, "@ + decimal(self.skipped as nat) + " skipped, "@ + decimal(self.total_mappings as nat) + " total mappings"@);
        if self.failures.len() > 0 {
            out.append("\nfailed layouts:");
            let ghost fs = self.failures.deep_view();
            let ghost mid = out@;
            assert(fs.take(0) =~= Seq::<BatchItemView>::empty());
            assert(mid + failures_text(fs.take(0)) =~= mid);
            for i in 0..self.failures.len()
                invariant
                    fs == self.failures.deep_view(),
                    out@ == mid + failures_text(fs.take(i as int)),
            {
                assert(fs.take(i + 1).drop_last() =~= fs.take(i as int));
                assert(fs.take(i + 1).last() == fs[i as int]);
                assert(fs[i as int] == self.failures[i as int].deep_view());
                let item = &self.failures[i];
                match &item.status {
                    BatchStatus::Skipped { error } => {
                        let ghost before_item = out@;
                        out.append("\n  ");
                        out.append(item.layout.as_str());
                        match &item.variant {
                            Some(v) => {
                                out.push('+');
                                out.append(v.as_str());
                            },
                            None => {},
                        }
                        out.append(": ");
                        out.append(error.as_str());
                        assert(out@ =~= before_item + ("\n  "@ + item_stem(item.layout@, item.variant.deep_view()) + ": "@ + error@));
                    },
                    BatchStatus::Written { .. } => {},
                }
                assert(out@ =~= mid + failures_text(fs.take(i + 1)));
            }
            assert(fs.take(fs.len() as int) =~= fs);
            assert(out@ =~= head + ("\nfailed layouts:"@ + failures_text(fs)));
        } else {
            assert(out@ =~= head + Seq::<char>::empty());
        }
        out
    }
}

/// A row of the `layout` section adds one layout: the trimmed line is its name, a run of
/// whitespace, then its description. The name is the whole first word (not empty, no
/// whitespace), and the description does not start with whitespace; the run of whitespace is
/// empty only when the description is.
pub proof fn lemma_layout_row(st: EvdevState, line: Seq<char>)
    requires
        st.0 == "layout"@,
        trim(line).len() > 0,
        trim(line)[0] != '!',
    ensures
        ({
            let t = trim(line);
            let r = evdev_step(st, line);
            &&& r.0 == st.0
            &&& r.2 == st.2
            &&& r.1.len() == st.1.len() + 1
            &&& r.1.drop_last() == st.1
            &&& r.1.last().0.len() > 0
            &&& forall|i: int| 0 <= i < r.1.last().0.len() ==> !is_ws(#[trigger] r.1.last().0[i])
            &&& exists|gap: Seq<char>|
                t == r.1.last().0 + gap + r.1.last().1 && (forall|i: int| 0 <= i < gap.len() ==> is_ws(#[trigger] gap[i]))
                    && (r.1.last().1.len() > 0 ==> gap.len() > 0 && !is_ws(r.1.last().1[0]))
        }),
{
    let u = trim_start(line);
    let t = trim(line);
    lemma_trim_start(line);
    lemma_trim_end_prefix(u);
    assert(t[0] == u[0]);
    assert(trim_start(t) == t);
    let w = word_len(t);
    lemma_word_len(t);
    let name = t.take(w as int);
    assert(words(t)[0] == name);
    let x = t.skip(w as int);
    assert(drop_word(t) == x);
    assert(after_words(t, 1) == after_words(x, 0));
    assert(after_words(x, 0) == trim_start(x));
    let d = trim_start(x);
    lemma_trim_start(x);
    lemma_trim_start_gap(x);
    let g = x.len() - d.len();
    let gap = x.take(g);
    let r = evdev_step(st, line);
    assert(r == (st.0, st.1.push((name, d)), st.2));
    assert(r.1.last() == (name, d));
    assert(r.1.drop_last() =~= st.1);
    assert(t =~= name + gap + d);
    assert forall|i: int| 0 <= i < gap.len() implies is_ws(#[trigger] gap[i]) by {
        assert(gap[i] == x[i]);
    }
    if d.len() > 0 {
        assert(x.len() > 0);
        assert(x[0] == t[w as int]);
        if g == 0 {
            assert(d =~= x);
        }
    }
    assert forall|i: int| 0 <= i < name.len() implies !is_ws(#[trigger] name[i]) by {
        assert(name[i] == t[i]);
    }
}

/// A row of the `variant` section whose second word is not only colons adds one variant: the
/// trimmed line is the variant name, whitespace, the parent layout followed by its trailing
/// colons, whitespace, then the description. Both names are whole words (not empty, no
/// whitespace), the layout is the second word without its trailing colons, and the description
/// does not start with whitespace; the second run of whitespace is empty only when the
/// description is.
pub proof fn lemma_variant_row(st: EvdevState, line: Seq<char>)
    requires
        st.0 == "variant"@,
        trim(line).len() > 0,
        trim(line)[0] != '!',
        words(trim(line)).len() >= 2,
        strip_trailing(words(trim(line))[1], ':').len() > 0,
    ensures
        ({
            let t = trim(line);
            let r = evdev_step(st, line);
            let e = r.2.last();
            &&& r.0 == st.0
            &&& r.1 == st.1
            &&& r.2.len() == st.2.len() + 1
            &&& r.2.drop_last() == st.2
            &&& e.0.len() > 0
            &&& forall|i: int| 0 <= i < e.0.len() ==> !is_ws(#[trigger] e.0[i])
            &&& exists|gap1: Seq<char>, second: Seq<char>, gap2: Seq<char>|
                t == e.0 + gap1 + second + gap2 + e.2 && gap1.len() > 0
                    && (forall|i: int| 0 <= i < gap1.len() ==> is_ws(#[trigger] gap1[i]))
                    && second.len() > 0 && (forall|i: int| 0 <= i < second.len() ==> !is_ws(#[trigger] second[i]))
                    && e.1 == strip_trailing(second, ':')
                    && (forall|i: int| 0 <= i < gap2.len() ==> is_ws(#[trigger] gap2[i]))
                    && (e.2.len() > 0 ==> gap2.len() > 0 && !is_ws(e.2[0]))
        }),
{
    reveal_strlit("layout");
    reveal_strlit("variant");
    assert(st.0 != "layout"@) by {
        assert(st.0[0] != "layout"@[0]);
    }
    let u = trim_start(line);
    let t = trim(line);
    lemma_trim_start(line);
    lemma_trim_end_prefix(u);
    assert(t[0] == u[0]);
    assert(trim_start(t) == t);
    let w = word_len(t);
    lemma_word_len(t);
    let name = t.take(w as int);
    let x = t.skip(w as int);
    assert(words(t) == seq![name] + words(x));
    assert(words(t)[0] == name);
    // The second word.
    let y = trim_start(x);
    lemma_trim_start(x);
    lemma_trim_start_gap(x);
    let g1 = x.len() - y.len();
    let gap1 = x.take(g1);
    assert(words(x).len() >= 1);
    assert(y.len() > 0);
    let w2 = word_len(y);
    lemma_word_len(y);
    let second = y.take(w2 as int);
    assert(words(x)[0] == second);
    assert(words(t)[1] == second);
    let z = y.skip(w2 as int);
    // The description.
    assert(drop_word(t) == x);
    assert(after_words(t, 2) == after_words(x, 1));
    assert(drop_word(y) == z);
    assert(after_words(x, 1) == after_words(z, 0));
    assert(after_words(z, 0) == trim_start(z));
    let d = trim_start(z);
    lemma_trim_start(z);
    lemma_trim_start_gap(z);
    let g2 = z.len() - d.len();
    let gap2 = z.take(g2);
    let r = evdev_step(st, line);
    assert(r == (st.0, st.1, st.2.push((name, strip_trailing(second, ':'), d))));
    assert(r.2.drop_last() =~= st.2);
    assert(x =~= gap1 + y);
    assert(y =~= second + gap2 + d);
    assert(t =~= name + gap1 + second + gap2 + d);
    assert forall|i: int| 0 <= i < gap1.len() implies is_ws(#[trigger] gap1[i]) by {
        assert(gap1[i] == x[i]);
    }
    assert forall|i: int| 0 <= i < gap2.len() implies is_ws(#[trigger] gap2[i]) by {
        assert(gap2[i] == z[i]);
    }
    assert forall|i: int| 0 <= i < name.len() implies !is_ws(#[trigger] name[i]) by {
        assert(name[i] == t[i]);
    }
    assert forall|i: int| 0 <= i < second.len() implies !is_ws(#[trigger] second[i]) by {
        assert(second[i] == y[i]);
    }
    // The first gap is not empty: the first word ends at whitespace.
    assert(w < t.len());
    assert(x[0] == t[w as int]);
    if g1 == 0 {
        assert(y =~= x);
    }
    if d.len() > 0 {
        assert(z.len() > 0);
        assert(z[0] == y[w2 as int]);
        if g2 == 0 {
            assert(d =~= z);
        }
    }
    let e = r.2.last();
    assert(e == (name, strip_trailing(second, ':'), d));
    assert(t == e.0 + gap1 + second + gap2 + e.2 && gap1.len() > 0
        && (forall|i: int| 0 <= i < gap1.len() ==> is_ws(#[trigger] gap1[i]))
        && second.len() > 0 && (forall|i: int| 0 <= i < second.len() ==> !is_ws(#[trigger] second[i]))
        && e.1 == strip_trailing(second, ':')
        && (forall|i: int| 0 <= i < gap2.len() ==> is_ws(#[trigger] gap2[i]))
        && (e.2.len() > 0 ==> gap2.len() > 0 && !is_ws(e.2[0])));
}

} // verus!
