use crate::abstraction::as_tables;
use crate::abstraction::derives;
use crate::abstraction::distinct_tables;
use crate::abstraction::rectangular;
use crate::notation::read_table;
use crate::notation::table_or_complaint;
use crate::table::SlotModel;
use crate::table::Table;
use crate::table::Tier;
use std::fmt::Debug;
use std::fmt::Display;
use std::hash::Hash;
use vstd::prelude::*;
use vstd::string::StringExecFns;

verus! {

/// What can name an element of a tier.
pub trait Label: Ord + Eq + PartialEq + Clone + Hash + Display + Debug {}

impl<'a> Label for &'a str {}

/// A representation in tiers of slots, which can be put after another one of
/// its kind and made more abstract step by step.
pub trait Tabular: Sized {
    type L: Label;

    /// What [`Tabular::concatenate`] asks of the two.
    spec fn joinable(&self, other: &Self) -> bool;

    /// What [`Tabular::abstractions`] asks.
    spec fn regular(&self) -> bool;

    /// The representation of nothing.
    fn new() -> Self;

    /// Reads a representation from a text, or says what is wrong with the
    /// text.
    fn from_str(input: &'static str) -> Result<Self, String>;

    /// This representation followed by `other`.
    fn concatenate(&self, other: &Self) -> Self
        requires
            self.joinable(other),
    ;

    /// This representation and everything more abstract that comes from
    /// it.
    fn abstractions(&self) -> Vec<Self>
        requires
            self.regular(),
    ;
}

/// A converter of grapheme sequences of one language to a tabular
/// representation.
pub trait GraphemeTabular<Tab: Tabular>: Sized {
    type TierName;

    /// What [`GraphemeTabular::tier_name_to_tier_index`] asks of a name.
    spec fn names_tier(&self, tier_name: &Self::TierName) -> bool;

    /// What [`GraphemeTabular::tier_index_to_tier_name`] asks of an index.
    spec fn numbers_tier(&self, tier_index: usize) -> bool;

    /// The converter of the language.
    fn new() -> Self;

    /// The index of the tier of a name.
    fn tier_name_to_tier_index(&self, tier_name: &Self::TierName) -> usize
        requires
            self.names_tier(tier_name),
    ;

    /// The name of the tier of an index.
    fn tier_index_to_tier_name(&self, tier_index: usize) -> Self::TierName
        requires
            self.numbers_tier(tier_index),
    ;

    /// What [`GraphemeTabular::from_string`] asks of a word.
    spec fn readable(&self, graphemes: &'static str) -> bool;

    /// The representation of a word in the spelling of the language, or
    /// what is wrong with the word.
    fn from_string(&self, graphemes: &'static str) -> Result<Tab, String>
        requires
            self.readable(graphemes),
    ;
}

/// Two tables put side by side, tier by tier: as many tiers as the first
/// has.
pub open spec fn joined_tables(x: Seq<Seq<SlotModel>>, y: Seq<Seq<SlotModel>>) -> Seq<
    Seq<SlotModel>,
> {
    Seq::new(x.len(), |i: int| x[i] + y[i])
}

impl<'a> Tabular for Table<'a> {
    type L = &'a str;

    /// The second table has a tier for each tier of the first.
    open spec fn joinable(&self, other: &Self) -> bool {
        self@.len() <= other@.len()
    }

    /// All tiers have the same number of slots.
    open spec fn regular(&self) -> bool {
        rectangular(self@)
    }

    /// The table without tiers.
    fn new() -> (table: Self)
        ensures
            table@ == Seq::<Seq<SlotModel>>::empty(),
    {
        let table = Table { tiers: Vec::new() };
        assert(table@ =~= Seq::empty());
        table
    }

    /// Reads a table from a text in the notation of tables: tiers between
    /// commas, each a row of items between blank space, each item an element
    /// (a name, or an underscore for none) with or without a count before
    /// it.
    fn from_str(input: &'static str) -> (result: Result<Self, String>)
        ensures
            match result {
                Ok(t) => table_or_complaint(input@) == Ok::<Seq<Seq<SlotModel>>, Seq<char>>(t@),
                Err(e) => table_or_complaint(input@) == Err::<Seq<Seq<SlotModel>>, Seq<char>>(e@),
            },
    {
        match read_table(input) {
            Some(table) => Ok(table),
            None => Err(String::from_str("the text writes no table")),
        }
    }

    /// The table whose tiers are the tiers of this table, each followed by
    /// the tier of `other` in the same place.
    fn concatenate(&self, other: &Self) -> (table: Self)
        ensures
            table@ == joined_tables(self@, other@),
    {
        let mut result: Vec<Tier<'a>> = Vec::new();
        let mut i: usize = 0;
        while i < self.tiers.len()
            invariant
                i <= self.tiers.len(),
                self.tiers.len() <= other.tiers.len(),
                result@.len() == i,
                forall|k: int| 0 <= k < i ==> (#[trigger] result@[k])@ == self@[k] + other@[k],
            decreases self.tiers.len() - i,
        {
            result.push(self.tiers[i].concatenate(&other.tiers[i]));
            i += 1;
        }
        let table = Table { tiers: result };
        assert(table@ =~= joined_tables(self@, other@));
        table
    }

    /// The table and everything that comes from it by abstractions, each
    /// table once.
    fn abstractions(&self) -> (result: Vec<Self>)
        ensures
            distinct_tables(result@),
            forall|t: Seq<Seq<SlotModel>>| #[trigger]
                as_tables(result@).contains(t) <==> derives(self@, t),
    {
        let mut found: Vec<Table<'a>> = Vec::new();
        self.collect(&mut found);
        found
    }
}

} // verus!
