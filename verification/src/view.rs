//! The viewer's own state and rules, apart from drawing: the interface
//! language, row and column selections, which rows to fetch around the
//! visible ones, and how sizes are shown.
use vstd::prelude::*;
use vstd::string::StringSliceAdditionalSpecFns;
use vstd::utf8::{encode_utf8, is_char_boundary};
use std::collections::{BTreeMap, BTreeSet};
use crate::engine::RowData;
use crate::chars::{push_char, str_eq, str_to_chars};
use crate::text::{is_part_of, last_component, plain_path, stem_of};

verus! {

broadcast use vstd::std_specs::btree::group_btree_axioms, vstd::laws_cmp::group_laws_cmp;

// ─── Interface language ─────────────────────────────────────────────────────

/// The language of the interface.
#[derive(Clone, Copy, Debug, PartialEq, Eq, Structural)]
pub enum Language {
    English,
    Chinese,
}

/// The text a language is stored as in the settings.
pub open spec fn storage_text(language: Language) -> Seq<char> {
    match language {
        Language::English => "en"@,
        Language::Chinese => "zh-CN"@,
    }
}

/// The language a stored text names, if any.
pub open spec fn spec_parse_language(value: Seq<char>) -> Option<Language> {
    if value == "en"@ {
        Some(Language::English)
    } else if value == "zh-CN"@ {
        Some(Language::Chinese)
    } else {
        None
    }
}

impl Language {
    /// The language a stored text names (see [`spec_parse_language`]).
    pub fn parse(value: &str) -> (r: Option<Language>)
        ensures
            r == spec_parse_language(value@),
    {
        if str_eq(value, "en") {
            Some(Language::English)
        } else if str_eq(value, "zh-CN") {
            Some(Language::Chinese)
        } else {
            None
        }
    }

    /// The text the language is stored as.
    pub fn storage_value(self) -> (r: &'static str)
        ensures
            r@ == storage_text(self),
    {
        match self {
            Language::English => "en",
            Language::Chinese => "zh-CN",
        }
    }

    /// The English or the Chinese text, whichever the language is.
    pub fn text(self, english: &'static str, chinese: &'static str) -> (r: &'static str)
        ensures
            r == match self {
                Language::English => english,
                Language::Chinese => chinese,
            },
    {
        match self {
            Language::English => english,
            Language::Chinese => chinese,
        }
    }

    pub fn is_chinese(self) -> (r: bool)
        ensures
            r == (self == Language::Chinese),
    {
        self == Language::Chinese
    }
}

/// A stored language reads back as itself.
pub proof fn law_language_round_trip(language: Language)
    ensures
        spec_parse_language(storage_text(language)) == Some(language),
{
    reveal_strlit("en");
    reveal_strlit("zh-CN");
    assert("en"@ != "zh-CN"@) by {
        assert("en"@.len() != "zh-CN"@.len());
    }
}

// ─── Selections ─────────────────────────────────────────────────────────────

/// Whether `x` lies in an inclusive range.
pub open spec fn in_range(range: Option<(u32, u32)>, x: u32) -> bool {
    range matches Some((start, end)) && start <= x <= end
}

/// The span between an anchor and a clicked index.
pub open spec fn span(anchor: u32, x: u32) -> (u32, u32) {
    if anchor <= x {
        (anchor, x)
    } else {
        (x, anchor)
    }
}

/// The set after a toggling click on `x`.
pub open spec fn toggle(set: Set<u32>, x: u32) -> Set<u32> {
    if set.contains(x) {
        set.remove(x)
    } else {
        set.insert(x)
    }
}

/// The indices `start..=end`.
pub open spec fn index_span(start: u32, end: u32) -> Set<u32> {
    Set::new(|x: u32| start <= x <= end)
}

proof fn lemma_index_span_len(start: u32, end: u32)
    requires
        start <= end,
    ensures
        index_span(start, end).finite(),
        index_span(start, end).len() == end - start + 1,
    decreases end - start,
{
    if start == end {
        assert(index_span(start, end) =~= Set::<u32>::empty().insert(start));
    } else {
        let prev = (end - 1) as u32;
        lemma_index_span_len(start, prev);
        assert(index_span(start, end) =~= index_span(start, prev).insert(end));
    }
}

/// A finite set inside a span with as many members as the span holds all of it.
proof fn lemma_full_span(set: Set<u32>, start: u32, end: u32, y: u32)
    requires
        start <= y <= end,
        set.finite(),
        forall|x: u32| #[trigger] set.contains(x) ==> start <= x <= end,
        set.len() >= end - start + 1,
    ensures
        set.contains(y),
{
    lemma_index_span_len(start, end);
    if !set.contains(y) {
        let rest = index_span(start, end).remove(y);
        assert(set.subset_of(rest));
        vstd::set_lib::lemma_len_subset(set, rest);
    }
}

/// A selection of rows or columns: a range picked by clicking and
/// shift-clicking, with indices taken out of it and indices outside it added
/// by toggling (Ctrl-) clicks; the anchor is where the next shift-click
/// spans from.
pub struct Selection {
    anchor: Option<u32>,
    range: Option<(u32, u32)>,
    excluded: BTreeSet<u32>,
    toggled: BTreeSet<u32>,
}

/// The anchor a shift-click spans from: the selection's anchor, or the
/// clicked index when there is none.
pub open spec fn anchor_or(sel: Selection, x: u32) -> u32 {
    match sel.spec_anchor() {
        Some(a) => a,
        None => x,
    }
}

/// Nothing selected and no anchor.
pub open spec fn is_empty_selection(sel: Selection) -> bool {
    &&& sel.spec_anchor() is None
    &&& sel.spec_range() is None
    &&& sel.spec_excluded() == Set::<u32>::empty()
    &&& sel.spec_toggled() == Set::<u32>::empty()
}

/// What a click on `x` does: with shift, the indices from the anchor to `x`
/// become the selection (the anchor stays); with the toggle modifier, `x`
/// alone changes whether it is selected and becomes the anchor; otherwise
/// `x` alone is selected and becomes the anchor.
pub open spec fn clicked(before: Selection, after: Selection, x: u32, shift: bool, toggle: bool) -> bool {
    &&& shift ==> {
        &&& after.spec_range() == Some(span(anchor_or(before, x), x))
        &&& after.spec_excluded() == Set::<u32>::empty()
        &&& after.spec_toggled() == Set::<u32>::empty()
        &&& after.spec_anchor() == before.spec_anchor()
    }
    &&& !shift && toggle ==> {
        &&& after.spec_anchor() == Some(x)
        &&& before.consistent() ==> forall|y: u32| #[trigger] after.selects(y) == (before.selects(y) != (y == x))
    }
    &&& !shift && !toggle ==> {
        &&& after.spec_range() == Some((x, x))
        &&& after.spec_excluded() == Set::<u32>::empty()
        &&& after.spec_toggled() == Set::<u32>::empty()
        &&& after.spec_anchor() == Some(x)
    }
    &&& before.consistent() ==> after.consistent()
}

impl Selection {
    pub closed spec fn spec_anchor(&self) -> Option<u32> {
        self.anchor
    }

    pub closed spec fn spec_range(&self) -> Option<(u32, u32)> {
        self.range
    }

    /// The indices of the range taken out of the selection.
    pub closed spec fn spec_excluded(&self) -> Set<u32> {
        self.excluded@
    }

    /// The indices outside the range added to the selection.
    pub closed spec fn spec_toggled(&self) -> Set<u32> {
        self.toggled@
    }

    /// Whether an index is selected.
    pub open spec fn selects(&self, x: u32) -> bool {
        (in_range(self.spec_range(), x) && !self.spec_excluded().contains(x)) || self.spec_toggled().contains(x)
    }

    /// What every selection built by [`Selection::new`], [`Selection::clear`]
    /// and [`Selection::click`] keeps: finitely many indices are taken out
    /// or added, those taken out lie in the range and those added outside
    /// it, and a range runs forwards and keeps at least one index.
    pub open spec fn consistent(&self) -> bool {
        &&& self.spec_toggled().finite()
        &&& self.spec_excluded().finite()
        &&& forall|x: u32| #[trigger] self.spec_excluded().contains(x) ==> in_range(self.spec_range(), x)
        &&& forall|x: u32| #[trigger] self.spec_toggled().contains(x) ==> !in_range(self.spec_range(), x)
        &&& (self.spec_range() matches Some((start, end)) ==> start <= end && self.spec_excluded().len() < end - start + 1)
    }

    /// Nothing selected.
    pub fn new() -> (r: Self)
        ensures
            is_empty_selection(r),
            r.consistent(),
    {
        Selection { anchor: None, range: None, excluded: BTreeSet::new(), toggled: BTreeSet::new() }
    }

    pub fn clear(&mut self)
        ensures
            is_empty_selection(*final(self)),
            final(self).consistent(),
    {
        self.anchor = None;
        self.range = None;
        self.excluded.clear();
        self.toggled.clear();
    }

    /// A click on `x` (see [`clicked`]).
    pub fn click(&mut self, x: u32, shift: bool, toggle: bool)
        ensures
            clicked(*old(self), *final(self), x, shift, toggle),
    {
        if shift {
            let anchor = match self.anchor {
                Some(a) => a,
                None => x,
            };
            self.range = Some(if anchor <= x { (anchor, x) } else { (x, anchor) });
            self.excluded.clear();
            self.toggled.clear();
            proof {
                if old(self).consistent() {
                    assert(self.spec_excluded().len() == 0);
                }
            }
        } else if toggle {
            self.anchor = Some(x);
            match self.range {
                Some((start, end)) if start <= x && x <= end => {
                    if !self.excluded.insert(x) {
                        self.excluded.remove(&x);
                    }
                    assert(self.excluded@ =~= crate::view::toggle(old(self).excluded@, x));
                    let taken = self.excluded.len() as u64;
                    if taken == (end - start) as u64 + 1 {
                        let ghost full = self.excluded@;
                        self.range = None;
                        self.excluded.clear();
                        proof {
                            if old(self).consistent() {
                                assert forall|y: u32| start <= y <= end implies #[trigger] full.contains(y) by {
                                    lemma_full_span(full, start, end, y);
                                }
                                assert forall|y: u32| #[trigger] self.selects(y) == (old(self).selects(y) != (y == x)) by {
                                    if start <= y <= end {
                                        assert(full.contains(y));
                                        assert(!old(self).spec_toggled().contains(y));
                                    }
                                }
                            }
                        }
                    } else {
                        proof {
                            if old(self).consistent() {
                                assert(self.spec_excluded().finite());
                                assert forall|y: u32| #[trigger] self.selects(y) == (old(self).selects(y) != (y == x)) by {
                                    if y == x {
                                        assert(!old(self).spec_toggled().contains(y));
                                    }
                                }
                            }
                        }
                    }
                },
                _ => {
                    if !self.toggled.insert(x) {
                        self.toggled.remove(&x);
                    }
                    assert(self.toggled@ =~= crate::view::toggle(old(self).toggled@, x));
                    proof {
                        if old(self).consistent() {
                            assert(!in_range(self.spec_range(), x));
                            assert forall|y: u32| #[trigger] self.selects(y) == (old(self).selects(y) != (y == x)) by {
                                if y == x {
                                    assert(!in_range(old(self).spec_range(), y));
                                }
                            }
                        }
                    }
                },
            }
        } else {
            self.range = Some((x, x));
            self.excluded.clear();
            self.toggled.clear();
            self.anchor = Some(x);
        }
    }

    /// Whether an index is selected.
    pub fn contains(&self, x: u32) -> (r: bool)
        ensures
            r == self.selects(x),
    {
        let in_span = match self.range {
            Some((start, end)) => x >= start && x <= end,
            None => false,
        };
        (in_span && !self.excluded.contains(&x)) || self.toggled.contains(&x)
    }
}

/// An index kept below `total` (at 0 when there is nothing).
pub open spec fn capped(x: u32, total: u32) -> u32 {
    if total == 0 {
        0
    } else if x < total - 1 {
        x
    } else {
        (total - 1) as u32
    }
}

/// Whether anything is selected.
pub open spec fn has_any(sel: Selection) -> bool {
    exists|y: u32| #[trigger] sel.selects(y)
}

/// Whether `lo` is the least selected index.
pub open spec fn is_least_selected(sel: Selection, lo: u32) -> bool {
    sel.selects(lo) && forall|y: u32| #[trigger] sel.selects(y) ==> lo <= y
}

/// Whether `hi` is the greatest selected index.
pub open spec fn is_greatest_selected(sel: Selection, hi: u32) -> bool {
    sel.selects(hi) && forall|y: u32| #[trigger] sel.selects(y) ==> y <= hi
}

/// Whether `first` and `last` are the least and greatest selected indices,
/// each kept below `total`.
pub open spec fn are_bounds(sel: Selection, total: u32, first: u32, last: u32) -> bool {
    exists|lo: u32, hi: u32| {
        &&& is_least_selected(sel, lo)
        &&& is_greatest_selected(sel, hi)
        &&& first == capped(lo, total)
        &&& last == capped(hi, total)
    }
}

/// `n`, or `u32::MAX` where `n` is larger.
pub open spec fn saturated_count(n: int) -> int {
    if n > u32::MAX { u32::MAX as int } else { n }
}

/// How many indices of the range stay selected.
pub open spec fn kept_count(sel: Selection) -> int {
    match sel.spec_range() {
        Some((start, end)) => if start <= end && sel.spec_excluded().len() <= end - start + 1 {
            end - start + 1 - sel.spec_excluded().len()
        } else {
            0
        },
        None => 0,
    }
}

impl Selection {
    /// The least index of the range still selected, if any.
    fn range_low(&self) -> (r: Option<u32>)
        ensures
            match r {
                Some(l) => in_range(self.spec_range(), l) && !self.spec_excluded().contains(l)
                    && forall|y: u32| #[trigger] in_range(self.spec_range(), y) && !self.spec_excluded().contains(y) ==> l <= y,
                None => forall|y: u32| !(#[trigger] in_range(self.spec_range(), y) && !self.spec_excluded().contains(y)),
            },
    {
        match self.range {
            None => None,
            Some((start, end)) => {
                if start > end {
                    return None;
                }
                let mut r = start;
                while r < end && self.excluded.contains(&r)
                    invariant
                        start <= r <= end,
                        self.range == Some((start, end)),
                        forall|y: u32| start <= y < r ==> #[trigger] self.excluded@.contains(y),
                    decreases end - r,
                {
                    r += 1;
                }
                if self.excluded.contains(&r) {
                    assert forall|y: u32| !(#[trigger] in_range(self.spec_range(), y) && !self.spec_excluded().contains(y)) by {
                        if start <= y <= end && y != r {
                            assert(y < r);
                        }
                    }
                    None
                } else {
                    Some(r)
                }
            },
        }
    }

    /// The greatest index of the range still selected, if any.
    fn range_high(&self) -> (r: Option<u32>)
        ensures
            match r {
                Some(h) => in_range(self.spec_range(), h) && !self.spec_excluded().contains(h)
                    && forall|y: u32| #[trigger] in_range(self.spec_range(), y) && !self.spec_excluded().contains(y) ==> y <= h,
                None => forall|y: u32| !(#[trigger] in_range(self.spec_range(), y) && !self.spec_excluded().contains(y)),
            },
    {
        match self.range {
            None => None,
            Some((start, end)) => {
                if start > end {
                    return None;
                }
                let mut r = end;
                while r > start && self.excluded.contains(&r)
                    invariant
                        start <= r <= end,
                        self.range == Some((start, end)),
                        forall|y: u32| r < y <= end ==> #[trigger] self.excluded@.contains(y),
                    decreases r - start,
                {
                    r -= 1;
                }
                if self.excluded.contains(&r) {
                    assert forall|y: u32| !(#[trigger] in_range(self.spec_range(), y) && !self.spec_excluded().contains(y)) by {
                        if start <= y <= end && y != r {
                            assert(y > r);
                        }
                    }
                    None
                } else {
                    Some(r)
                }
            },
        }
    }

    /// The least selected index, if any.
    pub fn first_selected(&self) -> (r: Option<u32>)
        ensures
            match r {
                Some(l) => is_least_selected(*self, l),
                None => !has_any(*self),
            },
    {
        let a = self.range_low();
        let b = set_first(&self.toggled);
        match (a, b) {
            (Some(x), Some(y)) => Some(if x <= y { x } else { y }),
            (Some(x), None) => Some(x),
            (None, Some(y)) => Some(y),
            (None, None) => {
                assert(!has_any(*self)) by {
                    if has_any(*self) {
                        let y = choose|y: u32| #[trigger] self.selects(y);
                        assert(!(in_range(self.spec_range(), y) && !self.spec_excluded().contains(y)));
                    }
                }
                None
            },
        }
    }

    /// The greatest selected index, if any.
    pub fn last_selected(&self) -> (r: Option<u32>)
        ensures
            match r {
                Some(h) => is_greatest_selected(*self, h),
                None => !has_any(*self),
            },
    {
        let a = self.range_high();
        let b = set_last(&self.toggled);
        match (a, b) {
            (Some(x), Some(y)) => Some(if x >= y { x } else { y }),
            (Some(x), None) => Some(x),
            (None, Some(y)) => Some(y),
            (None, None) => {
                assert(!has_any(*self)) by {
                    if has_any(*self) {
                        let y = choose|y: u32| #[trigger] self.selects(y);
                        assert(!(in_range(self.spec_range(), y) && !self.spec_excluded().contains(y)));
                    }
                }
                None
            },
        }
    }

    /// Whether anything is selected.
    pub fn has_selection(&self) -> (r: bool)
        ensures
            r == has_any(*self),
    {
        self.first_selected().is_some()
    }

    /// The first and last selected indices, each kept below `total` (none
    /// when nothing is selected).
    pub fn bounds(&self, total: u32) -> (r: Option<(u32, u32)>)
        ensures
            r is None <==> !has_any(*self),
            r matches Some((first, last)) ==> are_bounds(*self, total, first, last),
    {
        match (self.first_selected(), self.last_selected()) {
            (Some(lo), Some(hi)) => {
                let cap = total.saturating_sub(1);
                let first = if lo < cap { lo } else { cap };
                let last = if hi < cap { hi } else { cap };
                assert(first == capped(lo, total) && last == capped(hi, total));
                Some((first, last))
            },
            _ => None,
        }
    }

    /// How many indices are selected: those of the range not taken out,
    /// and those added outside it (held at `u32::MAX`).
    pub fn count(&self) -> (r: u32)
        ensures
            r == saturated_count(kept_count(*self) + self.spec_toggled().len()),
    {
        let taken = self.excluded.len() as u64;
        let added = self.toggled.len() as u64;
        let kept: u64 = match self.range {
            Some((start, end)) => if start <= end { ((end - start) as u64 + 1).saturating_sub(taken) } else { 0 },
            None => 0,
        };
        let total = kept.saturating_add(added);
        if total > u32::MAX as u64 { u32::MAX } else { total as u32 }
    }
}

/// The indices a selection selects.
pub open spec fn selected_indices(sel: Selection) -> Set<u32> {
    Set::new(|x: u32| sel.selects(x))
}

/// The number a selection counts is the number of indices it selects.
pub proof fn law_count_is_indices_selected(sel: Selection)
    requires
        sel.consistent(),
    ensures
        selected_indices(sel).finite(),
        selected_indices(sel).len() == kept_count(sel) + sel.spec_toggled().len(),
{
    let ex = sel.spec_excluded();
    let tog = sel.spec_toggled();
    match sel.spec_range() {
        Some((start, end)) => {
            let sp = index_span(start, end);
            lemma_index_span_len(start, end);
            let kept = sp.difference(ex);
            assert(ex.subset_of(sp));
            assert(sp =~= kept + ex);
            vstd::set_lib::lemma_set_disjoint_lens(kept, ex);
            assert(selected_indices(sel) =~= kept + tog);
            assert(kept.disjoint(tog));
            vstd::set_lib::lemma_set_disjoint_lens(kept, tog);
        },
        None => {
            assert(selected_indices(sel) =~= tog);
        },
    }
}

/// The set left after toggling each of `clicks` in turn, from `set`.
pub open spec fn toggle_all(set: Set<u32>, clicks: Seq<u32>) -> Set<u32>
    decreases clicks.len(),
{
    if clicks.len() == 0 {
        set
    } else {
        toggle(toggle_all(set, clicks.drop_last()), clicks.last())
    }
}

/// How often `x` occurs in `s`.
pub open spec fn occurrences(s: Seq<u32>, x: u32) -> nat
    decreases s.len(),
{
    if s.len() == 0 {
        0
    } else {
        occurrences(s.drop_last(), x) + if s.last() == x { 1nat } else { 0nat }
    }
}

/// Toggling from an empty set leaves exactly the values toggled an odd
/// number of times, whatever the order.
pub proof fn law_toggles_select_odd_counts(clicks: Seq<u32>, x: u32)
    ensures
        toggle_all(Set::empty(), clicks).contains(x) <==> occurrences(clicks, x) % 2 == 1,
    decreases clicks.len(),
{
    if clicks.len() > 0 {
        law_toggles_select_odd_counts(clicks.drop_last(), x);
    }
}

/// A toggling (Ctrl-) click changes whether the clicked index is selected
/// and leaves every other index as it was.
pub proof fn law_ctrl_click_toggles_one(before: Selection, after: Selection, x: u32, other: u32)
    requires
        before.consistent(),
        clicked(before, after, x, false, true),
    ensures
        after.selects(other) <==> (before.selects(other) != (other == x)),
        after.consistent(),
{
}

proof fn lemma_ctrl_click_states(states: Seq<Selection>, clicks: Seq<u32>, i: int, x: u32)
    requires
        states.len() == clicks.len() + 1,
        is_empty_selection(states[0]),
        states[0].consistent(),
        forall|j: int| 1 <= j < states.len() ==> clicked(states[j - 1], #[trigger] states[j], clicks[j - 1], false, true),
        0 <= i < states.len(),
    ensures
        states[i].consistent(),
        states[i].selects(x) <==> occurrences(clicks.take(i), x) % 2 == 1,
    decreases i,
{
    if i > 0 {
        lemma_ctrl_click_states(states, clicks, i - 1, x);
        assert(clicks.take(i).drop_last() =~= clicks.take(i - 1));
        assert(clicked(states[i - 1], states[i], clicks[i - 1], false, true));
        assert(clicks.take(i).last() == clicks[i - 1]);
    } else {
        assert(clicks.take(0) =~= Seq::<u32>::empty());
    }
}

/// A selection that only received toggling (Ctrl-) clicks after being made
/// or cleared selects exactly the indices clicked an odd number of times.
pub proof fn law_ctrl_clicks_select_odd_counts(states: Seq<Selection>, clicks: Seq<u32>, x: u32)
    requires
        states.len() == clicks.len() + 1,
        is_empty_selection(states[0]),
        states[0].consistent(),
        forall|j: int| 1 <= j < states.len() ==> clicked(states[j - 1], #[trigger] states[j], clicks[j - 1], false, true),
    ensures
        states.last().selects(x) <==> occurrences(clicks, x) % 2 == 1,
{
    let n = clicks.len() as int;
    lemma_ctrl_click_states(states, clicks, n, x);
    assert(clicks.take(n) =~= clicks);
}

/// A click without modifiers selects that index and nothing else.
pub proof fn law_plain_click_selects_one(before: Selection, after: Selection, x: u32, other: u32)
    requires
        clicked(before, after, x, false, false),
    ensures
        after.selects(other) <==> other == x,
{
}

/// A shift-click selects exactly the indices between the anchor and the
/// clicked index, both included.
pub proof fn law_shift_click_selects_span(before: Selection, after: Selection, x: u32, toggle: bool, other: u32)
    requires
        before.spec_anchor() matches Some(a),
        clicked(before, after, x, true, toggle),
    ensures
        after.selects(other) <==> ({
            let a = before.spec_anchor()->0;
            (a <= other <= x) || (x <= other <= a)
        }),
{
}

/// Toggling the same index twice leaves a set as it was.
pub proof fn law_toggle_twice_restores(set: Set<u32>, x: u32)
    ensures
        toggle(toggle(set, x), x) == set,
{
    assert(toggle(toggle(set, x), x) =~= set);
}

/// A selection of rows (see [`Selection`]).
pub struct RowSelection {
    sel: Selection,
}

impl RowSelection {
    /// The selection the rows are picked by.
    pub closed spec fn selection(&self) -> Selection {
        self.sel
    }

    /// Whether a row is selected.
    pub open spec fn selects(&self, row: u32) -> bool {
        self.selection().selects(row)
    }

    /// Nothing selected.
    pub fn new() -> (r: Self)
        ensures
            is_empty_selection(r.selection()),
            r.selection().consistent(),
    {
        RowSelection { sel: Selection::new() }
    }

    pub fn clear(&mut self)
        ensures
            is_empty_selection(final(self).selection()),
            final(self).selection().consistent(),
    {
        self.sel.clear();
    }

    /// A click on a row: with shift, the rows from the anchor to it become
    /// the selection; with the toggle modifier (Ctrl), the row alone is
    /// added or taken out and becomes the anchor; otherwise the row alone
    /// is selected and becomes the anchor (see [`clicked`]).
    pub fn click(&mut self, row: u32, shift: bool, toggle: bool)
        ensures
            clicked(old(self).selection(), final(self).selection(), row, shift, toggle),
    {
        self.sel.click(row, shift, toggle);
    }

    /// Whether a row is selected.
    pub fn contains(&self, row: u32) -> (r: bool)
        ensures
            r == self.selects(row),
    {
        self.sel.contains(row)
    }

    /// Whether anything is selected.
    pub fn has_selection(&self) -> (r: bool)
        ensures
            r == has_any(self.selection()),
    {
        self.sel.has_selection()
    }

    /// The first and last selected rows, each kept below `total` (none
    /// when nothing is selected).
    pub fn bounds(&self, total: u32) -> (r: Option<(u32, u32)>)
        ensures
            r is None <==> !has_any(self.selection()),
            r matches Some((first, last)) ==> are_bounds(self.selection(), total, first, last),
    {
        self.sel.bounds(total)
    }

    /// How many rows are selected, held at `u32::MAX` (see
    /// [`law_count_is_indices_selected`]).
    pub fn count(&self) -> (r: u32)
        ensures
            r == saturated_count(kept_count(self.selection()) + self.selection().spec_toggled().len()),
    {
        self.sel.count()
    }
}

/// A selection of columns (see [`Selection`]).
pub struct ColumnSelection {
    sel: Selection,
}

impl ColumnSelection {
    /// The selection the columns are picked by.
    pub closed spec fn selection(&self) -> Selection {
        self.sel
    }

    /// Whether a col is selected.
    pub open spec fn selects(&self, col: u32) -> bool {
        self.selection().selects(col)
    }

    /// Nothing selected.
    pub fn new() -> (r: Self)
        ensures
            is_empty_selection(r.selection()),
            r.selection().consistent(),
    {
        ColumnSelection { sel: Selection::new() }
    }

    pub fn clear(&mut self)
        ensures
            is_empty_selection(final(self).selection()),
            final(self).selection().consistent(),
    {
        self.sel.clear();
    }

    /// A click on a col: with shift, the columns from the anchor to it become
    /// the selection; with the toggle modifier (Ctrl), the col alone is
    /// added or taken out and becomes the anchor; otherwise the col alone
    /// is selected and becomes the anchor (see [`clicked`]).
    pub fn click(&mut self, col: u32, shift: bool, toggle: bool)
        ensures
            clicked(old(self).selection(), final(self).selection(), col, shift, toggle),
    {
        self.sel.click(col, shift, toggle);
    }

    /// Whether a col is selected.
    pub fn contains(&self, col: u32) -> (r: bool)
        ensures
            r == self.selects(col),
    {
        self.sel.contains(col)
    }

    /// Whether anything is selected.
    pub fn has_selection(&self) -> (r: bool)
        ensures
            r == has_any(self.selection()),
    {
        self.sel.has_selection()
    }

    /// The first and last selected columns, each kept below `total` (none
    /// when nothing is selected).
    pub fn bounds(&self, total: u32) -> (r: Option<(u32, u32)>)
        ensures
            r is None <==> !has_any(self.selection()),
            r matches Some((first, last)) ==> are_bounds(self.selection(), total, first, last),
    {
        self.sel.bounds(total)
    }

    /// How many columns are selected, held at `u32::MAX` (see
    /// [`law_count_is_indices_selected`]).
    pub fn count(&self) -> (r: u32)
        ensures
            r == saturated_count(kept_count(self.selection()) + self.selection().spec_toggled().len()),
    {
        self.sel.count()
    }
}

/// `BTreeSet::first`: the least element, if any.
#[verifier::external_body]
fn set_first(set: &BTreeSet<u32>) -> (r: Option<u32>)
    ensures
        match r {
            Some(x) => set@.contains(x) && forall|y: u32| #[trigger] set@.contains(y) ==> x <= y,
            None => set@.is_empty(),
        },
{
    set.first().copied()
}

/// `BTreeSet::last`: the greatest element, if any.
#[verifier::external_body]
fn set_last(set: &BTreeSet<u32>) -> (r: Option<u32>)
    ensures
        match r {
            Some(x) => set@.contains(x) && forall|y: u32| #[trigger] set@.contains(y) ==> y <= x,
            None => set@.is_empty(),
        },
{
    set.last().copied()
}

// ─── Rows to fetch ──────────────────────────────────────────────────────────

/// The most rows shown at once.
pub const MAX_VISIBLE_ROWS: u32 = 180;
/// The fewest rows fetched per page.
pub const MIN_PREFETCH_ROWS: u32 = 24;

/// The page size for a view of rows `first_row..last_row`: the visible rows,
/// between 1 and a third of [`MAX_VISIBLE_ROWS`], but at least
/// [`MIN_PREFETCH_ROWS`].
pub open spec fn page_rows(first_row: u32, last_row: u32) -> int {
    let visible = if last_row > first_row { last_row - first_row } else { 0 };
    let clamped = if visible < 1 { 1 } else if visible > MAX_VISIBLE_ROWS / 3 { (MAX_VISIBLE_ROWS / 3) as int } else { visible };
    if clamped < MIN_PREFETCH_ROWS { MIN_PREFETCH_ROWS as int } else { clamped }
}

/// The rows to fetch around the visible rows `first_row..last_row` of a file
/// with `row_count` data rows: from one page before the visible rows' page
/// to two pages after its start (or to `last_row` if further), within the
/// file. Past the end of the file, nothing.
pub open spec fn spec_prefetched_row_range(first_row: u32, last_row: u32, row_count: u32) -> (u32, u32) {
    if first_row >= row_count {
        (row_count, row_count)
    } else {
        let page = page_rows(first_row, last_row);
        let page_start = (first_row as int) / page * page;
        let start = if page_start >= page { page_start - page } else { 0 };
        let ahead = page_start + 2 * page;
        let reach = if ahead > u32::MAX { u32::MAX as int } else { ahead };
        let wanted = if reach > last_row { reach } else { last_row as int };
        let end = if wanted < row_count { wanted } else { row_count as int };
        (start as u32, end as u32)
    }
}

/// The rows to fetch around the visible rows (see [`spec_prefetched_row_range`]).
pub fn prefetched_row_range(first_row: u32, last_row: u32, row_count: u32) -> (r: (u32, u32))
    ensures
        r == spec_prefetched_row_range(first_row, last_row, row_count),
{
    if first_row >= row_count {
        return (row_count, row_count);
    }
    let visible_rows = last_row.saturating_sub(first_row);
    let visible_rows = if visible_rows < 1 {
        1
    } else if visible_rows > MAX_VISIBLE_ROWS / 3 {
        MAX_VISIBLE_ROWS / 3
    } else {
        visible_rows
    };
    let page_rows = if visible_rows > MIN_PREFETCH_ROWS { visible_rows } else { MIN_PREFETCH_ROWS };
    let quotient = first_row / page_rows;
    assert(quotient * page_rows <= first_row) by (nonlinear_arith)
        requires
            quotient == first_row / page_rows,
            page_rows > 0,
    ;
    let page_start = quotient * page_rows;
    let start = page_start.saturating_sub(page_rows);
    let ahead = page_start.saturating_add(page_rows * 2);
    let wanted = if ahead > last_row { ahead } else { last_row };
    let end = if wanted < row_count { wanted } else { row_count };
    (start, end)
}

/// The rows fetched reach the first visible row and, within the file, the
/// last visible one; they start on a page boundary no more than one page
/// before the first visible row.
pub proof fn law_prefetch_covers_visible(first_row: u32, last_row: u32, row_count: u32)
    requires
        first_row < row_count,
    ensures
        ({
            let (start, end) = spec_prefetched_row_range(first_row, last_row, row_count);
            let page = page_rows(first_row, last_row);
            &&& start <= first_row < end <= row_count
            &&& (last_row <= row_count ==> last_row <= end)
            &&& (start as int) % page == 0
            &&& first_row - start < 2 * page
        }),
{
    let page = page_rows(first_row, last_row);
    let page_start = (first_row as int) / page * page;
    assert(page_start <= first_row && first_row - page_start < page && page_start % page == 0) by (nonlinear_arith)
        requires
            page_start == (first_row as int) / page * page,
            page > 0,
            first_row >= 0,
    ;
    let start: int = if page_start >= page { page_start - page } else { 0 };
    assert(start % page == 0) by (nonlinear_arith)
        requires
            page_start % page == 0,
            page > 0,
            start == if page_start >= page { page_start - page } else { 0 },
    ;
    let r = spec_prefetched_row_range(first_row, last_row, row_count);
    assert(r.0 == start as u32);
    assert(r.0 as int == start);
}

/// Moving the view within one page, with the same number of visible rows,
/// fetches from the same start: the window changes only page by page.
pub proof fn law_prefetch_changes_by_pages(first_a: u32, first_b: u32, visible: u32, row_count: u32)
    requires
        first_a < row_count,
        first_b < row_count,
        first_a as int + visible <= u32::MAX,
        first_b as int + visible <= u32::MAX,
        (first_a as int) / page_rows(first_a, (first_a + visible) as u32) == (first_b as int) / page_rows(first_b, (first_b + visible) as u32),
    ensures
        spec_prefetched_row_range(first_a, (first_a + visible) as u32, row_count).0
            == spec_prefetched_row_range(first_b, (first_b + visible) as u32, row_count).0,
{
    assert(page_rows(first_a, (first_a + visible) as u32) == page_rows(first_b, (first_b + visible) as u32));
}

// ─── Sizes ──────────────────────────────────────────────────────────────────

/// The character of a decimal digit.
pub open spec fn digit_char(d: int) -> char {
    seq!['0', '1', '2', '3', '4', '5', '6', '7', '8', '9'][d]
}

/// The decimal digits of a number.
pub open spec fn decimal(n: nat) -> Seq<char>
    decreases n,
{
    if n < 10 {
        seq![digit_char(n as int)]
    } else {
        decimal(n / 10) + seq![digit_char((n % 10) as int)]
    }
}

fn digit(d: u128) -> (c: char)
    requires
        d < 10,
    ensures
        c == digit_char(d as int),
{
    if d == 0 {
        '0'
    } else if d == 1 {
        '1'
    } else if d == 2 {
        '2'
    } else if d == 3 {
        '3'
    } else if d == 4 {
        '4'
    } else if d == 5 {
        '5'
    } else if d == 6 {
        '6'
    } else if d == 7 {
        '7'
    } else if d == 8 {
        '8'
    } else {
        '9'
    }
}

/// Appends the decimal digits of `n`.
pub fn push_decimal(s: &mut String, n: u128)
    ensures
        final(s)@ == old(s)@ + decimal(n as nat),
    decreases n,
{
    if n >= 10 {
        push_decimal(s, n / 10);
    }
    push_char(s, digit(n % 10));
    assert(final(s)@ =~= old(s)@ + decimal(n as nat)) by {
        if n < 10 {
            assert(n % 10 == n);
        }
    }
}

/// The power of two a number's last kept bit stands for when it is held in
/// a 64-bit float (53 significant bits), searching up from `p`.
pub open spec fn f64_unit(b: nat, p: nat) -> nat
    decreases b - p,
{
    if p == 0 {
        1
    } else if b >= 9007199254740992 * p {
        f64_unit(b, 2 * p)
    } else {
        p
    }
}

/// A number as a 64-bit float holds it: rounded to 53 significant bits,
/// to the nearest, ties to the even one.
pub open spec fn f64_round(b: nat) -> nat {
    let p = f64_unit(b, 1);
    let q = b / p;
    let r = b % p;
    let half = p / 2;
    (if r > half || (r == half && p > 1 && q % 2 == 1) { q + 1 } else { q }) * p
}

/// `n / d` rounded to the nearest whole number, ties to the even one.
pub open spec fn div_round_even(n: nat, d: nat) -> nat {
    let q = n / d;
    let r = n % d;
    if 2 * r > d || (2 * r == d && q % 2 == 1) {
        q + 1
    } else {
        q
    }
}

/// How a size in bytes is shown: whole bytes below 1 KiB, else the size as
/// a 64-bit float in KB, MB or GB (units of 1024) with one decimal, rounded
/// to the nearest tenth, ties to the even tenth.
pub open spec fn spec_format_bytes(bytes: u64) -> Seq<char> {
    let m = f64_round(bytes as nat);
    if m < 1024 {
        decimal(bytes as nat) + seq![' ', 'B']
    } else {
        let (scale, unit) = if m < 1048576 {
            (1024nat, seq!['K', 'B'])
        } else if m < 1073741824 {
            (1048576nat, seq!['M', 'B'])
        } else {
            (1073741824nat, seq!['G', 'B'])
        };
        let tenths = div_round_even(m * 10, scale);
        decimal(tenths / 10) + seq!['.', digit_char((tenths % 10) as int), ' '] + unit
    }
}

/// A byte count as a 64-bit float holds it (see [`f64_round`]).
fn round_like_f64(bytes: u64) -> (m: u128)
    ensures
        m == f64_round(bytes as nat),
        m < 147573952589676412928,
{
    let b = bytes as u128;
    let mut p: u128 = 1;
    while b >= 9007199254740992 * p
        invariant
            1 <= p <= 18446744073709551616,
            p <= b || p == 1,
            f64_unit(b as nat, p as nat) == f64_unit(b as nat, 1),
            b < 18446744073709551616,
        decreases b - p,
    {
        p = p * 2;
    }
    let q = b / p;
    let r = b % p;
    let half = p / 2;
    let rounded = if r > half || (r == half && p > 1 && q % 2 == 1) { q + 1 } else { q };
    assert(rounded * p <= (b + p) * 2) by (nonlinear_arith)
        requires
            q == b / p,
            p >= 1,
            rounded <= q + 1,
    ;
    rounded * p
}

/// Shows a size in bytes (see [`spec_format_bytes`]).
pub fn format_bytes(bytes: u64) -> (r: String)
    ensures
        r@ == spec_format_bytes(bytes),
{
    let m = round_like_f64(bytes);
    let mut text = String::new();
    if m < 1024 {
        push_decimal(&mut text, bytes as u128);
        push_char(&mut text, ' ');
        push_char(&mut text, 'B');
        return text;
    }
    let (scale, first, second): (u128, char, char) = if m < 1048576 {
        (1024, 'K', 'B')
    } else if m < 1073741824 {
        (1048576, 'M', 'B')
    } else {
        (1073741824, 'G', 'B')
    };
    let num = m * 10;
    let q = num / scale;
    let rem = num % scale;
    let tenths = if 2 * rem > scale || (2 * rem == scale && q % 2 == 1) { q + 1 } else { q };
    push_decimal(&mut text, tenths / 10);
    push_char(&mut text, '.');
    push_char(&mut text, digit(tenths % 10));
    push_char(&mut text, ' ');
    push_char(&mut text, first);
    push_char(&mut text, second);
    assert(text@ =~= spec_format_bytes(bytes));
    text
}

// ─── Colours ────────────────────────────────────────────────────────────────

/// A colour as red, green and blue.
#[derive(Clone, Copy, Debug, PartialEq, Eq, Structural)]
pub struct Rgb {
    pub r: u8,
    pub g: u8,
    pub b: u8,
}

/// The value of a hexadecimal digit byte, either case.
pub open spec fn hex_value(c: u8) -> Option<u8> {
    if 0x30 <= c <= 0x39 {
        Some((c - 0x30) as u8)
    } else if 0x41 <= c <= 0x46 {
        Some((c - 0x41 + 10) as u8)
    } else if 0x61 <= c <= 0x66 {
        Some((c - 0x61 + 10) as u8)
    } else {
        None
    }
}

/// A two-byte field read as `u8::from_str_radix(.., 16)` reads it: an
/// optional `+` and hexadecimal digits.
pub open spec fn spec_hex_pair(a: u8, b: u8) -> Option<u8> {
    if a == 0x2B {
        hex_value(b)
    } else {
        match (hex_value(a), hex_value(b)) {
            (Some(x), Some(y)) => Some((x * 16 + y) as u8),
            _ => None,
        }
    }
}

/// The bytes of a colour text after an optional leading `#`.
pub open spec fn hex_part(b: Seq<u8>) -> Seq<u8> {
    if b.len() > 0 && b[0] == 0x23 {
        b.skip(1)
    } else {
        b
    }
}

/// Whether the fields of a six-byte colour text lie on character boundaries
/// (the text is cut into three two-byte fields).
pub open spec fn color_fields_split(b: Seq<u8>) -> bool {
    let off = b.len() - hex_part(b).len();
    hex_part(b).len() == 6 ==> is_char_boundary(b, off + 2) && is_char_boundary(b, off + 4)
}

/// The colour a text such as `#0C80FE` names: six hexadecimal digits in
/// three pairs, after an optional `#`.
pub open spec fn spec_parse_color(b: Seq<u8>) -> Option<Rgb> {
    let h = hex_part(b);
    if h.len() != 6 {
        None
    } else {
        match (spec_hex_pair(h[0], h[1]), spec_hex_pair(h[2], h[3]), spec_hex_pair(h[4], h[5])) {
            (Some(r), Some(g), Some(bl)) => Some(Rgb { r, g, b: bl }),
            _ => None,
        }
    }
}

fn hex_digit_value(c: u8) -> (r: Option<u8>)
    ensures
        r == hex_value(c),
{
    if 0x30 <= c && c <= 0x39 {
        Some(c - 0x30)
    } else if 0x41 <= c && c <= 0x46 {
        Some(c - 0x41 + 10)
    } else if 0x61 <= c && c <= 0x66 {
        Some(c - 0x61 + 10)
    } else {
        None
    }
}

fn hex_pair(a: u8, b: u8) -> (r: Option<u8>)
    ensures
        r == spec_hex_pair(a, b),
{
    if a == 0x2B {
        return hex_digit_value(b);
    }
    match (hex_digit_value(a), hex_digit_value(b)) {
        (Some(x), Some(y)) => Some(x * 16 + y),
        _ => None,
    }
}

/// Reads a colour text (see [`spec_parse_color`]). Its three fields must lie
/// on character boundaries, since the text is cut there.
pub fn parse_color(value: &str) -> (r: Option<Rgb>)
    requires
        color_fields_split(value.spec_bytes()),
    ensures
        r == spec_parse_color(value.spec_bytes()),
{
    let bytes = value.as_bytes();
    let n = bytes.len();
    let off: usize = if n > 0 && bytes[0] == 0x23 { 1 } else { 0 };
    assert(hex_part(bytes@) =~= bytes@.skip(off as int));
    if n - off != 6 {
        return None;
    }
    let red = hex_pair(bytes[off], bytes[off + 1]);
    let green = hex_pair(bytes[off + 2], bytes[off + 3]);
    let blue = hex_pair(bytes[off + 4], bytes[off + 5]);
    match (red, green, blue) {
        (Some(r), Some(g), Some(b)) => Some(Rgb { r, g, b }),
        _ => None,
    }
}

/// The upper-case hexadecimal digit for `d`.
pub open spec fn hex_char(d: int) -> char {
    seq!['0', '1', '2', '3', '4', '5', '6', '7', '8', '9', 'A', 'B', 'C', 'D', 'E', 'F'][d]
}

/// A colour written as `#RRGGBB` in upper-case hexadecimal.
pub open spec fn spec_color_to_hex(c: Rgb) -> Seq<char> {
    seq![
        '#',
        hex_char(c.r as int / 16),
        hex_char(c.r as int % 16),
        hex_char(c.g as int / 16),
        hex_char(c.g as int % 16),
        hex_char(c.b as int / 16),
        hex_char(c.b as int % 16),
    ]
}

fn hex_digit(d: u8) -> (c: char)
    requires
        d < 16,
    ensures
        c == hex_char(d as int),
{
    if d < 10 {
        digit(d as u128)
    } else if d == 10 {
        'A'
    } else if d == 11 {
        'B'
    } else if d == 12 {
        'C'
    } else if d == 13 {
        'D'
    } else if d == 14 {
        'E'
    } else {
        'F'
    }
}

/// Writes a colour as `#RRGGBB` (see [`spec_color_to_hex`]).
pub fn color_to_hex(color: Rgb) -> (r: String)
    ensures
        r@ == spec_color_to_hex(color),
{
    let mut s = String::new();
    push_char(&mut s, '#');
    push_char(&mut s, hex_digit(color.r / 16));
    push_char(&mut s, hex_digit(color.r % 16));
    push_char(&mut s, hex_digit(color.g / 16));
    push_char(&mut s, hex_digit(color.g % 16));
    push_char(&mut s, hex_digit(color.b / 16));
    push_char(&mut s, hex_digit(color.b % 16));
    assert(s@ =~= spec_color_to_hex(color));
    s
}

/// A hexadecimal digit character is ASCII, reads back as its value, and is
/// no `+`.
proof fn lemma_hex_char_value(d: int)
    requires
        0 <= d < 16,
    ensures
        '\0' <= hex_char(d) <= '\u{7f}',
        hex_value(hex_char(d) as u8) == Some(d as u8),
        hex_char(d) as u8 != 0x2B,
{
    let c = hex_char(d);
    if d < 10 {
        assert(c as u32 == 0x30 + d);
    } else {
        assert(c as u32 == 0x41 + d - 10);
    }
}

/// A colour written as hexadecimal reads back as the same colour (and its
/// text can be cut into fields).
pub proof fn law_color_hex_round_trip(color: Rgb)
    ensures
        color_fields_split(encode_utf8(spec_color_to_hex(color))),
        spec_parse_color(encode_utf8(spec_color_to_hex(color))) == Some(color),
{
    let t = spec_color_to_hex(color);
    let ds = seq![
        color.r as int / 16,
        color.r as int % 16,
        color.g as int / 16,
        color.g as int % 16,
        color.b as int / 16,
        color.b as int % 16,
    ];
    assert forall|k: int| 0 <= k < 6 implies t[k + 1] == hex_char(#[trigger] ds[k]) && 0 <= ds[k] < 16 by {}
    assert forall|k: int| 0 <= k < 6 implies {
        &&& '\0' <= #[trigger] t[k + 1] <= '\u{7f}'
        &&& hex_value(t[k + 1] as u8) == Some(ds[k] as u8)
        &&& t[k + 1] as u8 != 0x2B
    } by {
        lemma_hex_char_value(ds[k]);
    }
    assert(vstd::utf8::is_ascii_chars(t)) by {
        assert forall|i: int| 0 <= i < t.len() implies '\0' <= #[trigger] t[i] <= '\u{7f}' by {
            if i > 0 {
                assert(t[(i - 1) + 1] == t[i]);
            }
        }
    }
    vstd::utf8::is_ascii_chars_encode_utf8(t);
    vstd::utf8::encode_utf8_valid_utf8(t);
    let b = encode_utf8(t);
    assert(b.len() == 7);
    assert forall|i: int| 0 <= i < 7 implies #[trigger] b[i] == t[i] as u8 by {}
    assert(b[0] == 0x23u8);
    assert(hex_part(b) =~= b.skip(1));
    assert(spec_hex_pair(b[1], b[2]) == Some(color.r)) by {
        assert(b[1] == t[0int + 1] as u8 && b[2] == t[1int + 1] as u8);
    }
    assert(spec_hex_pair(b[3], b[4]) == Some(color.g)) by {
        assert(b[3] == t[2int + 1] as u8 && b[4] == t[3int + 1] as u8);
    }
    assert(spec_hex_pair(b[5], b[6]) == Some(color.b)) by {
        assert(b[5] == t[4int + 1] as u8 && b[6] == t[5int + 1] as u8);
    }
    vstd::utf8::is_char_boundary_iff_not_is_continuation_byte(b, 3);
    vstd::utf8::is_char_boundary_iff_not_is_continuation_byte(b, 5);
}

// ─── The export form ────────────────────────────────────────────────────────

/// The value of a string of decimal digits.
pub open spec fn digits_value(s: Seq<char>) -> nat
    decreases s.len(),
{
    if s.len() == 0 {
        0
    } else {
        digits_value(s.drop_last()) * 10 + (s.last() as nat - 48) as nat
    }
}

pub open spec fn all_digits(s: Seq<char>) -> bool {
    forall|i: int| 0 <= i < s.len() ==> '0' <= #[trigger] s[i] <= '9'
}

/// A number as `u32::from_str` reads it: an optional `+`, then one or more
/// decimal digits, with a value that fits in 32 bits.
pub open spec fn spec_parse_u32(s: Seq<char>) -> Option<u32> {
    let body = if s.len() > 0 && s[0] == '+' { s.skip(1) } else { s };
    if body.len() > 0 && all_digits(body) && digits_value(body) <= u32::MAX {
        Some(digits_value(body) as u32)
    } else {
        None
    }
}

proof fn lemma_digits_value_grows(s: Seq<char>, k: int)
    requires
        0 <= k <= s.len(),
        all_digits(s),
    ensures
        digits_value(s.take(k)) <= digits_value(s),
    decreases s.len() - k,
{
    if k < s.len() {
        lemma_digits_value_grows(s, k + 1);
        assert(s.take(k + 1).drop_last() =~= s.take(k));
        assert(s.take(k + 1).last() == s[k]);
    } else {
        assert(s.take(k) =~= s);
    }
}

/// Reads a number (see [`spec_parse_u32`]).
pub fn parse_u32(text: &str) -> (r: Option<u32>)
    ensures
        r == spec_parse_u32(text@),
{
    let chars = str_to_chars(text);
    let n = chars.len();
    let start: usize = if n > 0 && chars[0] == '+' { 1 } else { 0 };
    let ghost body = chars@.skip(start as int);
    assert(body =~= if text@.len() > 0 && text@[0] == '+' { text@.skip(1) } else { text@ });
    if start == n {
        return None;
    }
    let mut value: u64 = 0;
    let mut i = start;
    while i < n
        invariant
            start <= i <= n,
            n == chars@.len(),
            body == chars@.skip(start as int),
            body == (if text@.len() > 0 && text@[0] == '+' { text@.skip(1) } else { text@ }),
            all_digits(body.take(i - start)),
            value == digits_value(body.take(i - start)),
            value <= u32::MAX,
        decreases n - i,
    {
        let c = chars[i];
        if !('0' <= c && c <= '9') {
            assert(body[i - start] == c);
            assert(!all_digits(body));
            return None;
        }
        let d = (c as u32 - 48) as u64;
        assert(body.take(i - start + 1).drop_last() =~= body.take(i - start));
        assert(body.take(i - start + 1).last() == c);
        value = value * 10 + d;
        i += 1;
        if value > 4294967295 {
            proof {
                if all_digits(body) {
                    lemma_digits_value_grows(body, i - start);
                }
            }
            return None;
        }
    }
    assert(body.take(n - start) =~= body);
    Some(value as u32)
}

/// Why the export form cannot be used.
#[derive(Clone, Copy, Debug, PartialEq, Eq, Structural)]
pub enum ExportFormError {
    /// No column is chosen.
    NoColumns,
    /// A row bound is not a number from 1 on.
    InvalidRange,
    /// The rows do not lie within the file.
    OutsideFile,
}

impl ExportFormError {
    /// The message shown for the error.
    pub fn message(self, language: Language) -> (r: &'static str)
        ensures
            r@ == match (self, language) {
                (ExportFormError::NoColumns, Language::English) => "Select at least one column."@,
                (ExportFormError::NoColumns, Language::Chinese) => "请至少选择一列。"@,
                (ExportFormError::InvalidRange, Language::English) => "Enter a valid row range."@,
                (ExportFormError::InvalidRange, Language::Chinese) => "请输入有效的行范围。"@,
                (ExportFormError::OutsideFile, Language::English) => "Row range is outside the file."@,
                (ExportFormError::OutsideFile, Language::Chinese) => "行范围超出文件内容。"@,
            },
    {
        match self {
            ExportFormError::NoColumns => language.text("Select at least one column.", "请至少选择一列。"),
            ExportFormError::InvalidRange => language.text("Enter a valid row range.", "请输入有效的行范围。"),
            ExportFormError::OutsideFile => language.text("Row range is outside the file.", "行范围超出文件内容。"),
        }
    }
}

/// The positions of the checked boxes, as column indices (in 32 bits).
pub open spec fn checked_columns(checked: Seq<bool>, n: int) -> Seq<u32>
    decreases n,
{
    if n <= 0 {
        Seq::empty()
    } else if checked[n - 1] {
        checked_columns(checked, n - 1).push((n - 1) as u32)
    } else {
        checked_columns(checked, n - 1)
    }
}

/// A row bound as the form takes it: a number from 1 on, made 0-based.
pub open spec fn spec_row_bound(text: Seq<char>) -> Option<u32> {
    match spec_parse_u32(text) {
        Some(v) => if v >= 1 { Some((v - 1) as u32) } else { None },
        None => None,
    }
}

/// Checks the export form: at least one column must be checked, both row
/// bounds must be numbers from 1 on (1 is the first data row), and the rows
/// must run forwards within the file. Gives the chosen columns and the
/// 0-based first and last rows.
pub fn validate_export(columns: &[bool], from: &str, to: &str, row_count: u32) -> (r: Result<(Vec<u32>, u32, u32), ExportFormError>)
    ensures
        ({
            let cols = checked_columns(columns@, columns@.len() as int);
            let first = spec_row_bound(from@);
            let last = spec_row_bound(to@);
            if cols.len() == 0 {
                r == Err::<(Vec<u32>, u32, u32), ExportFormError>(ExportFormError::NoColumns)
            } else if first is None || last is None {
                r == Err::<(Vec<u32>, u32, u32), ExportFormError>(ExportFormError::InvalidRange)
            } else if first->0 > last->0 || last->0 >= row_count {
                r == Err::<(Vec<u32>, u32, u32), ExportFormError>(ExportFormError::OutsideFile)
            } else {
                r matches Ok((chosen, f, t)) && chosen@ == cols && f == first->0 && t == last->0
            }
        }),
{
    let mut chosen: Vec<u32> = Vec::new();
    let mut i: usize = 0;
    while i < columns.len()
        invariant
            i <= columns@.len(),
            chosen@ == checked_columns(columns@, i as int),
        decreases columns@.len() - i,
    {
        if columns[i] {
            chosen.push(i as u32);
        }
        i += 1;
    }
    let from_row = match parse_u32(from) {
        Some(v) => if v >= 1 { Some(v - 1) } else { None },
        None => None,
    };
    let to_row = match parse_u32(to) {
        Some(v) => if v >= 1 { Some(v - 1) } else { None },
        None => None,
    };
    if chosen.len() == 0 {
        return Err(ExportFormError::NoColumns);
    }
    match (from_row, to_row) {
        (Some(f), Some(t)) => {
            if f > t || t >= row_count {
                Err(ExportFormError::OutsideFile)
            } else {
                Ok((chosen, f, t))
            }
        },
        _ => Err(ExportFormError::InvalidRange),
    }
}

/// The decimal text of a number.
pub fn decimal_string(n: u32) -> (r: String)
    ensures
        r@ == decimal(n as nat),
{
    let mut s = String::new();
    push_decimal(&mut s, n as u128);
    assert(s@ =~= decimal(n as nat));
    s
}

/// What the export form starts with: every column checked unless some are
/// selected (then just those), and the rows of the row selection (1-based)
/// or else all rows.
pub fn export_form_defaults(columns: &ColumnSelection, rows: &RowSelection, column_count: u32, row_count: u32) -> (r: (Vec<bool>, String, String))
    ensures
        r.0@.len() == column_count,
        forall|c: int| 0 <= c < column_count ==> #[trigger] r.0@[c] == (!has_any(columns.selection()) || columns.selects(c as u32)),
        !has_any(rows.selection()) ==> r.1@ == decimal(1) && r.2@ == decimal(row_count as nat),
        has_any(rows.selection()) ==> exists|first: u32, last: u32| {
            &&& are_bounds(rows.selection(), row_count, first, last)
            &&& r.1@ == decimal((first + 1) as nat)
            &&& r.2@ == decimal((last + 1) as nat)
        },
{
    let has_selection = columns.has_selection();
    let mut checked: Vec<bool> = Vec::new();
    let mut c: u32 = 0;
    while c < column_count
        invariant
            c <= column_count,
            checked@.len() == c,
            has_selection == has_any(columns.selection()),
            forall|k: int| 0 <= k < c ==> #[trigger] checked@[k] == (!has_selection || columns.selects(k as u32)),
        decreases column_count - c,
    {
        checked.push(!has_selection || columns.contains(c));
        c += 1;
    }
    match rows.bounds(row_count) {
        Some((first, last)) => {
            let from = decimal_string(first + 1);
            let to = decimal_string(last + 1);
            (checked, from, to)
        },
        None => {
            let from = decimal_string(1);
            let to = decimal_string(row_count);
            (checked, from, to)
        },
    }
}

/// `Path::file_stem`, read as text: the file name without its extension, a
/// stretch of the path's own text. For a [`plain_path`] the file name is the
/// text after the last `/`, and the stem is what `Path::file_stem` documents
/// ([`stem_of`]); for other paths, where the platform's separators and
/// prefixes decide the file name, which stretch it is is not stated.
#[verifier::external_body]
fn path_file_stem(path: &str) -> (r: Option<String>)
    ensures
        r matches Some(stem) ==> is_part_of(stem@, path@),
        plain_path(path@) ==> r is Some && r->0@ == stem_of(last_component(path@)),
{
    match std::path::Path::new(path).file_stem() {
        Some(stem) => Some(stem.to_string_lossy().into_owned()),
        None => None,
    }
}

/// The name an export is offered under: the file's stem followed by
/// `_export.csv`, or `export.csv` when the path has no stem.
pub fn export_file_name(stem: Option<&str>) -> (r: String)
    ensures
        r@ == match stem {
            Some(s) => s@ + "_export.csv"@,
            None => "export.csv"@,
        },
{
    match stem {
        Some(s) => {
            let mut name = s.to_owned();
            name.append("_export.csv");
            name
        },
        None => "export.csv".to_owned(),
    }
}

/// The name an export of the file at `file_path` is offered under (see
/// [`export_file_name`]): the file's stem, a stretch of the path, followed by
/// `_export.csv`, or `export.csv` when the path has no stem.
pub fn default_export_name(file_path: &str) -> (r: String)
    ensures
        r@ == "export.csv"@ || exists|stem: Seq<char>| is_part_of(stem, file_path@) && r@ == stem + "_export.csv"@,
        plain_path(file_path@) ==> r@ == stem_of(last_component(file_path@)) + "_export.csv"@,
{
    let stem = path_file_stem(file_path);
    match &stem {
        Some(s) => export_file_name(Some(s.as_str())),
        None => export_file_name(None),
    }
}

// ─── Rows held for drawing ──────────────────────────────────────────────────

/// Whether `ranges` are the stretches of rows in `start..end` that are not
/// held: in order, apart from each other, and each as long as it can be.
pub open spec fn are_missing_runs(ranges: Seq<(u32, u32)>, held: Set<u32>, start: int, end: int) -> bool {
    &&& forall|k: int| 0 <= k < ranges.len() ==> start <= (#[trigger] ranges[k]).0 < ranges[k].1 <= end
    &&& forall|j: int, k: int| 0 <= j < k < ranges.len() ==> (#[trigger] ranges[j]).1 < (#[trigger] ranges[k]).0
    &&& forall|r: u32| start <= r < end ==> (!held.contains(r) <==> exists|k: int|
        0 <= k < ranges.len() && (#[trigger] ranges[k]).0 <= r < ranges[k].1)
    &&& forall|k: int| 0 <= k < ranges.len() ==> ((#[trigger] ranges[k]).0 == start || held.contains((ranges[k].0 - 1) as u32))
        && (ranges[k].1 == end || held.contains(ranges[k].1))
}

/// The stretches of rows in `start..end` that are not held yet (see
/// [`are_missing_runs`]).
pub fn missing_row_ranges(held: &BTreeMap<u32, RowData>, start: u32, end: u32) -> (r: Vec<(u32, u32)>)
    ensures
        are_missing_runs(r@, held@.dom(), start as int, end as int),
{
    let mut ranges: Vec<(u32, u32)> = Vec::new();
    let mut open: Option<u32> = None;
    let mut row = start;
    while row < end
        invariant
            start <= row <= end || (start > end && row == start),
            forall|k: int| 0 <= k < ranges@.len() ==> start <= (#[trigger] ranges@[k]).0 < ranges@[k].1 < row,
            forall|j: int, k: int| 0 <= j < k < ranges@.len() ==> (#[trigger] ranges@[j]).1 < (#[trigger] ranges@[k]).0,
            forall|k: int| 0 <= k < ranges@.len() ==> ((#[trigger] ranges@[k]).0 == start
                || held@.dom().contains((ranges@[k].0 - 1) as u32)) && held@.dom().contains(ranges@[k].1),
            match open {
                Some(s) => {
                    &&& start <= s < row
                    &&& s == start || held@.dom().contains((s - 1) as u32)
                    &&& forall|k: int| 0 <= k < ranges@.len() ==> (#[trigger] ranges@[k]).1 < s
                    &&& forall|r: u32| s <= r < row ==> !held@.dom().contains(r)
                },
                None => row == start || held@.dom().contains((row - 1) as u32),
            },
            forall|r: u32| start <= r < row ==> (!held@.dom().contains(r) <==> (exists|k: int|
                0 <= k < ranges@.len() && (#[trigger] ranges@[k]).0 <= r < ranges@[k].1)
                || (open matches Some(s) && s <= r)),
        decreases end - row,
    {
        if held.contains_key(&row) {
            match open {
                Some(s) => {
                    let ghost before = ranges@;
                    ranges.push((s, row));
                    proof {
                        assert forall|r: u32| start <= r < row + 1 implies (!held@.dom().contains(r) <==> (exists|k: int|
                            0 <= k < ranges@.len() && (#[trigger] ranges@[k]).0 <= r < ranges@[k].1)) by {
                            if exists|k: int| 0 <= k < ranges@.len() && (#[trigger] ranges@[k]).0 <= r < ranges@[k].1 {
                                let k = choose|k: int| 0 <= k < ranges@.len() && (#[trigger] ranges@[k]).0 <= r < ranges@[k].1;
                                if k < before.len() {
                                    assert(before[k] == ranges@[k]);
                                    assert(r < row);
                                    assert(!held@.dom().contains(r));
                                } else {
                                    assert(ranges@[k] == (s, row));
                                    assert(!held@.dom().contains(r));
                                }
                            } else if r < row {
                                if !held@.dom().contains(r) {
                                    if exists|k: int| 0 <= k < before.len() && (#[trigger] before[k]).0 <= r < before[k].1 {
                                        let k = choose|k: int| 0 <= k < before.len() && (#[trigger] before[k]).0 <= r < before[k].1;
                                        assert(ranges@[k] == before[k]);
                                    } else {
                                        assert(s <= r);
                                        assert(ranges@[before.len() as int] == (s, row));
                                    }
                                }
                            }
                        }
                    }
                    open = None;
                },
                None => {
                    proof {
                        assert forall|r: u32| start <= r < row + 1 implies (!held@.dom().contains(r) <==> (exists|k: int|
                            0 <= k < ranges@.len() && (#[trigger] ranges@[k]).0 <= r < ranges@[k].1)) by {
                            if r == row && exists|k: int| 0 <= k < ranges@.len() && (#[trigger] ranges@[k]).0 <= r < ranges@[k].1 {
                                let k = choose|k: int| 0 <= k < ranges@.len() && (#[trigger] ranges@[k]).0 <= r < ranges@[k].1;
                                assert(ranges@[k].1 < row);
                            }
                        }
                    }
                },
            }
        } else {
            if open.is_none() {
                open = Some(row);
            }
            proof {
                assert forall|r: u32| start <= r < row + 1 implies (!held@.dom().contains(r) <==> (exists|k: int|
                    0 <= k < ranges@.len() && (#[trigger] ranges@[k]).0 <= r < ranges@[k].1)
                    || (open matches Some(s) && s <= r)) by {
                    if r == row && exists|k: int| 0 <= k < ranges@.len() && (#[trigger] ranges@[k]).0 <= r < ranges@[k].1 {
                        let k = choose|k: int| 0 <= k < ranges@.len() && (#[trigger] ranges@[k]).0 <= r < ranges@[k].1;
                        assert(ranges@[k].1 < row);
                    }
                }
            }
        }
        row += 1;
    }
    match open {
        Some(s) => {
            let ghost before = ranges@;
            ranges.push((s, end));
            proof {
                assert forall|r: u32| start <= r < end implies (!held@.dom().contains(r) <==> (exists|k: int|
                    0 <= k < ranges@.len() && (#[trigger] ranges@[k]).0 <= r < ranges@[k].1)) by {
                    if exists|k: int| 0 <= k < ranges@.len() && (#[trigger] ranges@[k]).0 <= r < ranges@[k].1 {
                        let k = choose|k: int| 0 <= k < ranges@.len() && (#[trigger] ranges@[k]).0 <= r < ranges@[k].1;
                        if k < before.len() {
                            assert(before[k] == ranges@[k]);
                            assert(!held@.dom().contains(r));
                        } else {
                            assert(ranges@[k] == (s, end));
                            assert(!held@.dom().contains(r));
                        }
                    } else if !held@.dom().contains(r) {
                        if exists|k: int| 0 <= k < before.len() && (#[trigger] before[k]).0 <= r < before[k].1 {
                            let k = choose|k: int| 0 <= k < before.len() && (#[trigger] before[k]).0 <= r < before[k].1;
                            assert(ranges@[k] == before[k]);
                        } else {
                            assert(s <= r);
                            assert(ranges@[before.len() as int] == (s, end));
                        }
                    }
                }
            }
        },
        None => {},
    }
    ranges
}

/// How far a row lies from `center`.
pub open spec fn row_distance(row: u32, center: u32) -> int {
    if row >= center { row - center } else { center - row }
}

/// Whether row `a` is dropped before row `b` when rows are trimmed around
/// `center`: it lies further away, or as far and after it.
pub open spec fn dropped_before(a: u32, b: u32, center: u32) -> bool {
    row_distance(a, center) > row_distance(b, center) || (row_distance(a, center) == row_distance(b, center) && a > b)
}

/// `BTreeMap::first_key_value`: the least key, if any.
#[verifier::external_body]
fn first_row(rows: &BTreeMap<u32, RowData>) -> (r: Option<u32>)
    ensures
        match r {
            Some(k) => rows@.contains_key(k) && forall|y: u32| #[trigger] rows@.contains_key(y) ==> k <= y,
            None => rows@.dom().is_empty(),
        },
{
    rows.first_key_value().map(|(key, _)| *key)
}

/// `BTreeMap::last_key_value`: the greatest key, if any.
#[verifier::external_body]
fn last_row(rows: &BTreeMap<u32, RowData>) -> (r: Option<u32>)
    ensures
        match r {
            Some(k) => rows@.contains_key(k) && forall|y: u32| #[trigger] rows@.contains_key(y) ==> y <= k,
            None => rows@.dom().is_empty(),
        },
{
    rows.last_key_value().map(|(key, _)| *key)
}

/// Drops held rows, furthest from `center` first (the later of two as far),
/// until at most `limit` are held.
pub fn trim_rows(rows: &mut BTreeMap<u32, RowData>, center: u32, limit: usize)
    ensures
        final(rows)@.dom().subset_of(old(rows)@.dom()),
        forall|k: u32| #[trigger] final(rows)@.contains_key(k) ==> final(rows)@[k] == old(rows)@[k],
        final(rows)@.dom().len() == if old(rows)@.dom().len() < limit { old(rows)@.dom().len() } else { limit as nat },
        forall|kept: u32, dropped: u32| #[trigger] final(rows)@.contains_key(kept) && old(rows)@.contains_key(dropped)
            && !#[trigger] final(rows)@.contains_key(dropped) ==> dropped_before(dropped, kept, center),
{
    proof {
        vstd::std_specs::btree::axiom_btree_map_view_finite_dom(*rows);
    }
    while rows.len() > limit
        invariant
            rows@.dom().finite(),
            rows@.dom().subset_of(old(rows)@.dom()),
            old(rows)@.dom().finite(),
            forall|k: u32| #[trigger] rows@.contains_key(k) ==> rows@[k] == old(rows)@[k],
            old(rows)@.dom().len() >= limit ==> rows@.dom().len() >= limit,
            old(rows)@.dom().len() < limit ==> rows@.dom() == old(rows)@.dom(),
            forall|kept: u32, dropped: u32| #[trigger] rows@.contains_key(kept) && old(rows)@.contains_key(dropped)
                && !#[trigger] rows@.contains_key(dropped) ==> dropped_before(dropped, kept, center),
        decreases rows@.dom().len(),
    {
        let low = first_row(rows);
        let high = last_row(rows);
        if let (Some(lo), Some(hi)) = (low, high) {
            let lo_distance = if lo >= center { lo - center } else { center - lo };
            let hi_distance = if hi >= center { hi - center } else { center - hi };
            let victim = if lo_distance > hi_distance { lo } else { hi };
            let ghost before = rows@;
            proof {
                assert forall|k: u32| #[trigger] before.contains_key(k) && k != victim implies dropped_before(victim, k, center) by {
                    assert(lo <= k <= hi);
                }
            }
            rows.remove(&victim);
            proof {
                assert(rows@.dom() =~= before.dom().remove(victim));
            }
        } else {
            proof {
                assert(rows@.dom().is_empty());
                assert(rows@.dom() =~= Set::<u32>::empty());
                assert(false);
            }
        }
    }
}

} // verus!
