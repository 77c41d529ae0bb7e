//! The Axon value tree: dictionaries, lists and leaf literals, together
//! with the ghost model that the parser's contracts speak of.

use raystack_core::{Number, Ref, Symbol, TagName};
use vstd::prelude::*;

verus! {

broadcast use vstd::std_specs::vec::group_vec_axioms, vstd::seq::group_seq_axioms;

/// A month of a year.
#[derive(Clone, Copy, Debug, PartialEq, Eq, Structural)]
pub enum Month {
    Jan,
    Feb,
    Mar,
    Apr,
    May,
    Jun,
    Jul,
    Aug,
    Sep,
    Oct,
    Nov,
    Dec,
}

impl Month {
    /// Convert from a number between 1 and 12 inclusive.
    pub fn from_int(n: u32) -> (m: Option<Self>)
        ensures
            m == Self::spec_from_int(n),
    {
        match n {
            1 => Some(Month::Jan),
            2 => Some(Month::Feb),
            3 => Some(Month::Mar),
            4 => Some(Month::Apr),
            5 => Some(Month::May),
            6 => Some(Month::Jun),
            7 => Some(Month::Jul),
            8 => Some(Month::Aug),
            9 => Some(Month::Sep),
            10 => Some(Month::Oct),
            11 => Some(Month::Nov),
            12 => Some(Month::Dec),
            _ => None,
        }
    }

    pub open spec fn spec_from_int(n: u32) -> Option<Month> {
        if n == 1 {
            Some(Month::Jan)
        } else if n == 2 {
            Some(Month::Feb)
        } else if n == 3 {
            Some(Month::Mar)
        } else if n == 4 {
            Some(Month::Apr)
        } else if n == 5 {
            Some(Month::May)
        } else if n == 6 {
            Some(Month::Jun)
        } else if n == 7 {
            Some(Month::Jul)
        } else if n == 8 {
            Some(Month::Aug)
        } else if n == 9 {
            Some(Month::Sep)
        } else if n == 10 {
            Some(Month::Oct)
        } else if n == 11 {
            Some(Month::Nov)
        } else if n == 12 {
            Some(Month::Dec)
        } else {
            None
        }
    }
}

/// A month in a specific year.
#[derive(Clone, Copy, Debug, PartialEq, Eq, Structural)]
pub struct YearMonth {
    pub year: u32,
    pub month: Month,
}

impl YearMonth {
    pub fn new(year: u32, month: Month) -> (ym: Self)
        ensures
            ym.year == year,
            ym.month == month,
    {
        Self { year, month }
    }
}

/// A calendar date, held as plain year, month and day fields.
#[derive(Clone, Copy, Debug, PartialEq, Eq, Structural)]
pub struct Date {
    pub year: u32,
    pub month: u32,
    pub day: u32,
}

impl Date {
    pub open spec fn valid(self) -> bool {
        1 <= self.month <= 12 && 1 <= self.day <= 31
    }

    pub fn new(year: u32, month: u32, day: u32) -> (d: Self)
        requires
            1 <= month <= 12,
            1 <= day <= 31,
        ensures
            d == (Date { year, month, day }),
            d.valid(),
    {
        Self { year, month, day }
    }
}

/// A time of day with nanosecond precision.
#[derive(Clone, Copy, Debug, PartialEq, Eq, Structural)]
pub struct Time {
    pub hour: u32,
    pub minute: u32,
    pub second: u32,
    pub nanosecond: u32,
}

impl Time {
    pub open spec fn valid(self) -> bool {
        self.hour < 24 && self.minute < 60 && self.second < 60 && self.nanosecond < 1000000000
    }

    pub fn new(hour: u32, minute: u32, second: u32, nanosecond: u32) -> (t: Self)
        requires
            hour < 24,
            minute < 60,
            second < 60,
            nanosecond < 1000000000,
        ensures
            t == (Time { hour, minute, second, nanosecond }),
            t.valid(),
    {
        Self { hour, minute, second, nanosecond }
    }
}

/// An Axon literal.
#[derive(Clone, Debug, PartialEq)]
pub enum Lit {
    Bool(bool),
    Date(Date),
    DictMarker,
    DictRemoveMarker,
    Null,
    Num(Number),
    Ref(Ref),
    Str(String),
    Symbol(Symbol),
    Time(Time),
    Uri(String),
    YearMonth(YearMonth),
}

/// An Axon value: a dictionary of unique tag names, a list, or a literal.
#[derive(Debug, PartialEq)]
pub enum Val {
    Dict(Vec<(TagName, Val)>),
    List(Vec<Val>),
    Lit(Lit),
}

/// The ghost model of a literal: strings appear as character sequences.
pub enum LitModel {
    Bool(bool),
    Date(Date),
    DictMarker,
    DictRemoveMarker,
    Null,
    Num(Number),
    Ref(Ref),
    Str(Seq<char>),
    Symbol(Symbol),
    Time(Time),
    Uri(Seq<char>),
    YearMonth(YearMonth),
}

/// The ghost model of a value tree.
pub enum ValModel {
    Dict(Seq<(TagName, ValModel)>),
    List(Seq<ValModel>),
    Lit(LitModel),
}

impl Lit {
    pub open spec fn model(self) -> LitModel {
        match self {
            Lit::Bool(b) => LitModel::Bool(b),
            Lit::Date(d) => LitModel::Date(d),
            Lit::DictMarker => LitModel::DictMarker,
            Lit::DictRemoveMarker => LitModel::DictRemoveMarker,
            Lit::Null => LitModel::Null,
            Lit::Num(n) => LitModel::Num(n),
            Lit::Ref(r) => LitModel::Ref(r),
            Lit::Str(s) => LitModel::Str(s@),
            Lit::Symbol(s) => LitModel::Symbol(s),
            Lit::Time(t) => LitModel::Time(t),
            Lit::Uri(u) => LitModel::Uri(u@),
            Lit::YearMonth(ym) => LitModel::YearMonth(ym),
        }
    }
}

impl Val {
    pub open spec fn model(self) -> ValModel
        decreases self, 1int,
    {
        match self {
            Val::Dict(kvs) => ValModel::Dict(entries_model(kvs@)),
            Val::List(items) => ValModel::List(items_model(items@)),
            Val::Lit(l) => ValModel::Lit(l.model()),
        }
    }
}

/// The ghost entries of an executable entry vector.
pub open spec fn entries_model(kvs: Seq<(TagName, Val)>) -> Seq<(TagName, ValModel)>
    decreases kvs, 0int,
{
    Seq::new(
        kvs.len(),
        |i: int|
            if 0 <= i < kvs.len() {
                (kvs[i].0, kvs[i].1.model())
            } else {
                arbitrary()
            },
    )
}

/// The ghost items of an executable value vector.
pub open spec fn items_model(items: Seq<Val>) -> Seq<ValModel>
    decreases items, 0int,
{
    Seq::new(
        items.len(),
        |i: int|
            if 0 <= i < items.len() {
                items[i].model()
            } else {
                arbitrary()
            },
    )
}

impl View for Val {
    type V = ValModel;

    open spec fn view(&self) -> ValModel {
        self.model()
    }
}

/// The position of the first entry bound to `key`, or the length if the
/// key is absent.
pub open spec fn key_index(entries: Seq<(TagName, ValModel)>, key: TagName) -> int
    decreases entries.len(),
{
    if entries.len() == 0 {
        0
    } else if entries[0].0 == key {
        0
    } else {
        1 + key_index(entries.skip(1), key)
    }
}

/// Insertion into a dictionary entry sequence: a later binding of an
/// existing key replaces the earlier one in place; a new key is
/// appended.
pub open spec fn entries_insert(
    entries: Seq<(TagName, ValModel)>,
    key: TagName,
    value: ValModel,
) -> Seq<(TagName, ValModel)> {
    if key_index(entries, key) < entries.len() {
        entries.update(key_index(entries, key), (key, value))
    } else {
        entries.push((key, value))
    }
}

/// Where `key_index` points: before it nothing matches, and at it (if
/// inside the sequence) the key matches.
pub proof fn lemma_key_index_props(entries: Seq<(TagName, ValModel)>, key: TagName)
    ensures
        0 <= key_index(entries, key) <= entries.len(),
        forall|j: int| 0 <= j < key_index(entries, key) ==> (#[trigger] entries[j]).0 != key,
        key_index(entries, key) < entries.len() ==> entries[key_index(entries, key)].0 == key,
    decreases entries.len(),
{
    if entries.len() > 0 && entries[0].0 != key {
        lemma_key_index_props(entries.skip(1), key);
        assert forall|j: int| 0 <= j < key_index(entries, key) implies (#[trigger] entries[j]).0
            != key by {
            if j > 0 {
                assert(entries.skip(1)[j - 1] == entries[j]);
            }
        }
        if key_index(entries, key) < entries.len() {
            assert(entries.skip(1)[key_index(entries, key) - 1] == entries[key_index(
                entries,
                key,
            )]);
        }
    }
}

/// Keys of a dictionary entry sequence are pairwise distinct.
pub open spec fn unique_keys(entries: Seq<(TagName, ValModel)>) -> bool {
    forall|i: int, j: int|
        0 <= i < j < entries.len() ==> (#[trigger] entries[i]).0 != (#[trigger] entries[j]).0
}

/// Insertion keeps dictionary keys unique.
pub proof fn lemma_entries_insert_unique(
    entries: Seq<(TagName, ValModel)>,
    key: TagName,
    value: ValModel,
)
    requires
        unique_keys(entries),
    ensures
        unique_keys(entries_insert(entries, key, value)),
{
    lemma_key_index_props(entries, key);
    let ki = key_index(entries, key);
    let r = entries_insert(entries, key, value);
    if ki < entries.len() {
        assert forall|i: int, j: int| 0 <= i < j < r.len() implies (#[trigger] r[i]).0 != (
        #[trigger] r[j]).0 by {
            assert(entries[ki].0 == key);
        }
    } else {
        assert forall|i: int, j: int| 0 <= i < j < r.len() implies (#[trigger] r[i]).0 != (
        #[trigger] r[j]).0 by {
            if j == r.len() - 1 {
                assert(r[i] == entries[i]);
            }
        }
    }
}

/// A dictionary folded from written entries has unique keys: a later
/// binding of a key replaces the earlier one instead of joining it.
pub proof fn lemma_fold_keys_unique(entries: Seq<(TagName, ValModel)>)
    ensures
        unique_keys(crate::grammar::fold_entries(entries)),
    decreases entries.len(),
{
    if entries.len() > 0 {
        lemma_fold_keys_unique(entries.drop_last());
        lemma_entries_insert_unique(
            crate::grammar::fold_entries(entries.drop_last()),
            entries.last().0,
            entries.last().1,
        );
    }
}

/// `key_index` finds exactly the first match.
pub proof fn lemma_key_index_pin(entries: Seq<(TagName, ValModel)>, key: TagName, m: int)
    requires
        0 <= m <= entries.len(),
        forall|j: int| 0 <= j < m ==> (#[trigger] entries[j]).0 != key,
        m == entries.len() || entries[m].0 == key,
    ensures
        key_index(entries, key) == m,
    decreases m,
{
    if entries.len() > 0 && m > 0 {
        assert(entries[0].0 != key);
        assert forall|j: int| 0 <= j < m - 1 implies (#[trigger] entries.skip(1)[j]).0 != key by {
            assert(entries.skip(1)[j] == entries[j + 1]);
        }
        if m < entries.len() {
            assert(entries.skip(1)[m - 1] == entries[m]);
        }
        lemma_key_index_pin(entries.skip(1), key, m - 1);
    }
}

} // verus!
