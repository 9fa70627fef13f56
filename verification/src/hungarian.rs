use crate::graphemes::convert_graphemes;
use crate::graphemes::convert_graphemes_within;
use crate::graphemes::convertible_within;
use crate::graphemes::lemma_convertible_within;
use crate::graphemes::converted;
use crate::graphemes::convertible;
use crate::graphemes::graphemes_view;
use crate::graphemes::lemma_simplified_len;
use crate::notation::table_or_complaint;
use crate::tabular::GraphemeTabular;
use crate::table::same_text;
use crate::table::SlotModel;
use crate::table::Table;
use crate::tabular::joined_tables;
use crate::tabular::Tabular;
use std::collections::HashSet;
use vstd::prelude::*;
use vstd::string::StringExecFns;

verus! {

/// The notation of the table of a grapheme, for each grapheme that has one:
/// the short and the long vowels, the stops, fricatives, approximants, nasals
/// and the trill, each of the consonants plain and geminate (a capital
/// letter).
pub open spec fn notation_of(g: Seq<char>) -> Option<Seq<char>> {
    if g == "a"@ {
        Some("back, low, rounded, voiced, open, X, state;"@)
    } else if g == "e"@ {
        Some("front, low, unrounded, voiced, open, X, state;"@)
    } else if g == "i"@ {
        Some("front, high, unrounded, voiced, open, X, state;"@)
    } else if g == "o"@ {
        Some("back, mid, rounded, voiced, open, X, state;"@)
    } else if g == "u"@ {
        Some("back, high, rounded, voiced, open, X, state;"@)
    } else if g == "ö"@ {
        Some("front, mid, rounded, voiced, open, X, state;"@)
    } else if g == "ü"@ {
        Some("front, mid, rounded, voiced, open, X, state;"@)
    } else if g == "á"@ {
        Some("2 back, 2 extra-low, 2 unrounded, 2 voiced, 2 open, X X, 2 state"@)
    } else if g == "é"@ {
        Some("2 front, 2 mid-high, 2 unrounded, 2 voiced, 2 open, X X, 2 state"@)
    } else if g == "í"@ {
        Some("2 front, 2 high, 2 unrounded, 2 voiced, 2 open, X X, 2 state"@)
    } else if g == "ó"@ {
        Some("2 back, 2 mid-high, 2 rounded, 2 voiced, 2 open, X X, 2 state;"@)
    } else if g == "ú"@ {
        Some("2 back, 2 high, 2 rounded, 2 voiced, 2 open, X X, 2 state"@)
    } else if g == "ő"@ {
        Some("2 front, 2 mid-high, 2 rounded, 2 voiced, 2 open, X X, 2 state;"@)
    } else if g == "ű"@ {
        Some("2 front, 2 high, 2 rounded, 2 voiced, 2 open, X X, 2 state;"@)
    } else if g == "b"@ {
        Some("2 _, 2 _, 2 lips, 2 voiced, 2 stop, 2 X, state event;"@)
    } else if g == "d"@ {
        Some("2 dentialveolar, 2 _, 2 _, 2 voiced, 2 stop, 2 X, state event;"@)
    } else if g == "g"@ {
        Some("2 velar, 2 _, 2 _, 2 voiced, 2 stop, 2 X, state event;"@)
    } else if g == "p"@ {
        Some("2 _, 2 _, 2 lips, 2 voiceless, 2 stop, 2 X, state event;"@)
    } else if g == "t"@ {
        Some("2 dentialveolar, 2 _, 2 _, 2 voiceless, 2 stop, 2 X, state event;"@)
    } else if g == "c"@ {
        Some("2 dentialveolar, 2 _, 2 _, 2 voiceless, 2 stop, 2 X, state event;"@)
    } else if g == "č"@ {
        Some("2 coronal, 2 _, 2 _, 2 voiceless, 2 stop, 2 X, state event;"@)
    } else if g == "ď"@ {
        Some("2 palatal, 2 _, 2 _, 2 voiced, 2 stop, 2 X, state event;"@)
    } else if g == "ť"@ {
        Some("2 palatal, 2 _, 2 _, 2 voiceless, 2 stop, 2 X, state event;"@)
    } else if g == "k"@ {
        Some("2 velar, 2 _, 2 _, 2 voiceless, 2 stop, 2 X, state event;"@)
    } else if g == "B"@ {
        Some("3 _, 3 _, 3 lips, 3 voiced, 3 stop, X 2 X, 2 state event;"@)
    } else if g == "D"@ {
        Some("3 dentialveolar, 3 _, 3 _, 3 voiced, 3 stop , X 2 X, 2 state event;"@)
    } else if g == "C"@ {
        Some("3 dentialveolar, 3 _, 3 _, 3 voiceless, 3 stop, X 2 X, 2 state event;"@)
    } else if g == "Č"@ {
        Some("3 coronal, 3 _, 3 _, 3 voiceless, 3 stop, X 2 X, 2 state event;"@)
    } else if g == "Ď"@ {
        Some("3 palatal, 3 _, 3 _, 3 voiced, 3 stop, X 2 X, 2 state event;"@)
    } else if g == "Ť"@ {
        Some("3 palatal, 3 _, 3 _, 3 voiceless, 3 stop, X 2 X, 2 state event;"@)
    } else if g == "G"@ {
        Some("3 velar, 3 _, 3 _, 3 voiced, 3 stop, X 2 X, 2 state event;"@)
    } else if g == "P"@ {
        Some("3 _, 3 _, 3 lips, 3 voiceless, 3 stop, X 2 X, 2 state event;"@)
    } else if g == "T"@ {
        Some("3 dentialveolar, 3 _, 3 _, 3 voiceless, 3 stop, X 2 X, 2 state event;"@)
    } else if g == "K"@ {
        Some("3 velar, 3 _, 3 _, 3 voiceless, 3 stop, X 2 X, 2 state event;"@)
    } else if g == "v"@ {
        Some("_, _, lower-to-teeth, voiced, approximate, X, state;"@)
    } else if g == "f"@ {
        Some("_, _, lower-to-teeth, voiceless, slit, X, state;"@)
    } else if g == "z"@ {
        Some("dentialveolar, _, _, voiced, slit, X, state;"@)
    } else if g == "s"@ {
        Some("dentialveolar, _, _, voiceless, slit, X, state;"@)
    } else if g == "ž"@ {
        Some("coronal, _, _, voiced, slit, X, state;"@)
    } else if g == "š"@ {
        Some("coronal, _, _, voiceless, slit, X, state;"@)
    } else if g == "V"@ {
        Some("2 _, 2 _, 2 lower-to-teeth, 2 voiced, 2 approximate, X X, 2 state;"@)
    } else if g == "F"@ {
        Some("2 _, 2 _, 2 lower-to-teeth, 2 voiceless, 2 slit, X X, 2 state;"@)
    } else if g == "Z"@ {
        Some("2 dentialveolar, 2 _, 2 _, 2 voiced, 2 slit, X X, 2 state;"@)
    } else if g == "S"@ {
        Some("2 dentialveolar, 2 _, 2 _, 2 voiceless, 2 slit, X X, 2 state;"@)
    } else if g == "Ž"@ {
        Some("2 coronal, 2 _, 2 _, 2 voiced, 2 slit, X X, 2 state;"@)
    } else if g == "Š"@ {
        Some("2 coronal, 2 _, 2 _, 2 voiceless, 2 slit, X X, 2 event;"@)
    } else if g == "j"@ {
        Some("palatal, _, _, voiced, approximate, X, state;"@)
    } else if g == "h"@ {
        Some("_, _, _, voiceless, approximate, X, state"@)
    } else if g == "l"@ {
        Some("dentialveolar, _, _, voiced, lateral, X, state;"@)
    } else if g == "H"@ {
        Some("2 _, 2 _, 2 _, 2 voiceless, 2 approximate, X X, 2 state"@)
    } else if g == "J"@ {
        Some("2 palatal, 2 _, 2 _, 2 voiced, 2 approximate, X X, 2 state;"@)
    } else if g == "L"@ {
        Some("2 dentialveolar, 2 _, 2 _, 2 voiced, 2 lateral, X X, 2 state;"@)
    } else if g == "m"@ {
        Some("_, _, closed, voiced, nasal, X, state;"@)
    } else if g == "n"@ {
        Some("dentialveolar, _, _, voiced, nasal, X, state;"@)
    } else if g == "ń"@ {
        Some("2 palatal, 2 _, 2 _, 2 voiced, nasal slit, 2 X, 2 state;"@)
    } else if g == "M"@ {
        Some("2 _, 2 _, 2 closed, 2 voiced, 2 nasal, X X, 2 state;"@)
    } else if g == "N"@ {
        Some("2 dentialveolar, 2 _, 2 _, 2 voiced, 2 nasal, X X, 2 state;"@)
    } else if g == "Ń"@ {
        Some("2 palatal, 2 _, 2 _, 2 voiced, 2 nasal, X X, 2 state;"@)
    } else if g == "r"@ {
        Some("dentialveolar, _, _, voiced, trill, X, state;"@)
    } else if g == "R"@ {
        Some("2 dentialveolar, 2 _, 2 _, 2 voiced, 2 trill, X X, 2 state;"@)
    } else {
        None
    }
}

/// The notation of the table of a grapheme: see [`notation_of`].
pub fn notation(grapheme: &str) -> (text: Option<&'static str>)
    ensures
        match text {
            Some(t) => notation_of(grapheme@) == Some(t@),
            None => notation_of(grapheme@) is None,
        },
{
    if same_text(grapheme, "a") {
        Some("back, low, rounded, voiced, open, X, state;")
    } else if same_text(grapheme, "e") {
        Some("front, low, unrounded, voiced, open, X, state;")
    } else if same_text(grapheme, "i") {
        Some("front, high, unrounded, voiced, open, X, state;")
    } else if same_text(grapheme, "o") {
        Some("back, mid, rounded, voiced, open, X, state;")
    } else if same_text(grapheme, "u") {
        Some("back, high, rounded, voiced, open, X, state;")
    } else if same_text(grapheme, "ö") {
        Some("front, mid, rounded, voiced, open, X, state;")
    } else if same_text(grapheme, "ü") {
        Some("front, mid, rounded, voiced, open, X, state;")
    } else if same_text(grapheme, "á") {
        Some("2 back, 2 extra-low, 2 unrounded, 2 voiced, 2 open, X X, 2 state")
    } else if same_text(grapheme, "é") {
        Some("2 front, 2 mid-high, 2 unrounded, 2 voiced, 2 open, X X, 2 state")
    } else if same_text(grapheme, "í") {
        Some("2 front, 2 high, 2 unrounded, 2 voiced, 2 open, X X, 2 state")
    } else if same_text(grapheme, "ó") {
        Some("2 back, 2 mid-high, 2 rounded, 2 voiced, 2 open, X X, 2 state;")
    } else if same_text(grapheme, "ú") {
        Some("2 back, 2 high, 2 rounded, 2 voiced, 2 open, X X, 2 state")
    } else if same_text(grapheme, "ő") {
        Some("2 front, 2 mid-high, 2 rounded, 2 voiced, 2 open, X X, 2 state;")
    } else if same_text(grapheme, "ű") {
        Some("2 front, 2 high, 2 rounded, 2 voiced, 2 open, X X, 2 state;")
    } else if same_text(grapheme, "b") {
        Some("2 _, 2 _, 2 lips, 2 voiced, 2 stop, 2 X, state event;")
    } else if same_text(grapheme, "d") {
        Some("2 dentialveolar, 2 _, 2 _, 2 voiced, 2 stop, 2 X, state event;")
    } else if same_text(grapheme, "g") {
        Some("2 velar, 2 _, 2 _, 2 voiced, 2 stop, 2 X, state event;")
    } else if same_text(grapheme, "p") {
        Some("2 _, 2 _, 2 lips, 2 voiceless, 2 stop, 2 X, state event;")
    } else if same_text(grapheme, "t") {
        Some("2 dentialveolar, 2 _, 2 _, 2 voiceless, 2 stop, 2 X, state event;")
    } else if same_text(grapheme, "c") {
        Some("2 dentialveolar, 2 _, 2 _, 2 voiceless, 2 stop, 2 X, state event;")
    } else if same_text(grapheme, "č") {
        Some("2 coronal, 2 _, 2 _, 2 voiceless, 2 stop, 2 X, state event;")
    } else if same_text(grapheme, "ď") {
        Some("2 palatal, 2 _, 2 _, 2 voiced, 2 stop, 2 X, state event;")
    } else if same_text(grapheme, "ť") {
        Some("2 palatal, 2 _, 2 _, 2 voiceless, 2 stop, 2 X, state event;")
    } else if same_text(grapheme, "k") {
        Some("2 velar, 2 _, 2 _, 2 voiceless, 2 stop, 2 X, state event;")
    } else if same_text(grapheme, "B") {
        Some("3 _, 3 _, 3 lips, 3 voiced, 3 stop, X 2 X, 2 state event;")
    } else if same_text(grapheme, "D") {
        Some("3 dentialveolar, 3 _, 3 _, 3 voiced, 3 stop , X 2 X, 2 state event;")
    } else if same_text(grapheme, "C") {
        Some("3 dentialveolar, 3 _, 3 _, 3 voiceless, 3 stop, X 2 X, 2 state event;")
    } else if same_text(grapheme, "Č") {
        Some("3 coronal, 3 _, 3 _, 3 voiceless, 3 stop, X 2 X, 2 state event;")
    } else if same_text(grapheme, "Ď") {
        Some("3 palatal, 3 _, 3 _, 3 voiced, 3 stop, X 2 X, 2 state event;")
    } else if same_text(grapheme, "Ť") {
        Some("3 palatal, 3 _, 3 _, 3 voiceless, 3 stop, X 2 X, 2 state event;")
    } else if same_text(grapheme, "G") {
        Some("3 velar, 3 _, 3 _, 3 voiced, 3 stop, X 2 X, 2 state event;")
    } else if same_text(grapheme, "P") {
        Some("3 _, 3 _, 3 lips, 3 voiceless, 3 stop, X 2 X, 2 state event;")
    } else if same_text(grapheme, "T") {
        Some("3 dentialveolar, 3 _, 3 _, 3 voiceless, 3 stop, X 2 X, 2 state event;")
    } else if same_text(grapheme, "K") {
        Some("3 velar, 3 _, 3 _, 3 voiceless, 3 stop, X 2 X, 2 state event;")
    } else if same_text(grapheme, "v") {
        Some("_, _, lower-to-teeth, voiced, approximate, X, state;")
    } else if same_text(grapheme, "f") {
        Some("_, _, lower-to-teeth, voiceless, slit, X, state;")
    } else if same_text(grapheme, "z") {
        Some("dentialveolar, _, _, voiced, slit, X, state;")
    } else if same_text(grapheme, "s") {
        Some("dentialveolar, _, _, voiceless, slit, X, state;")
    } else if same_text(grapheme, "ž") {
        Some("coronal, _, _, voiced, slit, X, state;")
    } else if same_text(grapheme, "š") {
        Some("coronal, _, _, voiceless, slit, X, state;")
    } else if same_text(grapheme, "V") {
        Some("2 _, 2 _, 2 lower-to-teeth, 2 voiced, 2 approximate, X X, 2 state;")
    } else if same_text(grapheme, "F") {
        Some("2 _, 2 _, 2 lower-to-teeth, 2 voiceless, 2 slit, X X, 2 state;")
    } else if same_text(grapheme, "Z") {
        Some("2 dentialveolar, 2 _, 2 _, 2 voiced, 2 slit, X X, 2 state;")
    } else if same_text(grapheme, "S") {
        Some("2 dentialveolar, 2 _, 2 _, 2 voiceless, 2 slit, X X, 2 state;")
    } else if same_text(grapheme, "Ž") {
        Some("2 coronal, 2 _, 2 _, 2 voiced, 2 slit, X X, 2 state;")
    } else if same_text(grapheme, "Š") {
        Some("2 coronal, 2 _, 2 _, 2 voiceless, 2 slit, X X, 2 event;")
    } else if same_text(grapheme, "j") {
        Some("palatal, _, _, voiced, approximate, X, state;")
    } else if same_text(grapheme, "h") {
        Some("_, _, _, voiceless, approximate, X, state")
    } else if same_text(grapheme, "l") {
        Some("dentialveolar, _, _, voiced, lateral, X, state;")
    } else if same_text(grapheme, "H") {
        Some("2 _, 2 _, 2 _, 2 voiceless, 2 approximate, X X, 2 state")
    } else if same_text(grapheme, "J") {
        Some("2 palatal, 2 _, 2 _, 2 voiced, 2 approximate, X X, 2 state;")
    } else if same_text(grapheme, "L") {
        Some("2 dentialveolar, 2 _, 2 _, 2 voiced, 2 lateral, X X, 2 state;")
    } else if same_text(grapheme, "m") {
        Some("_, _, closed, voiced, nasal, X, state;")
    } else if same_text(grapheme, "n") {
        Some("dentialveolar, _, _, voiced, nasal, X, state;")
    } else if same_text(grapheme, "ń") {
        Some("2 palatal, 2 _, 2 _, 2 voiced, nasal slit, 2 X, 2 state;")
    } else if same_text(grapheme, "M") {
        Some("2 _, 2 _, 2 closed, 2 voiced, 2 nasal, X X, 2 state;")
    } else if same_text(grapheme, "N") {
        Some("2 dentialveolar, 2 _, 2 _, 2 voiced, 2 nasal, X X, 2 state;")
    } else if same_text(grapheme, "Ń") {
        Some("2 palatal, 2 _, 2 _, 2 voiced, 2 nasal, X X, 2 state;")
    } else if same_text(grapheme, "r") {
        Some("dentialveolar, _, _, voiced, trill, X, state;")
    } else if same_text(grapheme, "R") {
        Some("2 dentialveolar, 2 _, 2 _, 2 voiced, 2 trill, X X, 2 state;")
    } else {
        None
    }
}

/// What is said of a grapheme that has no table.
pub open spec fn bad_grapheme(g: Seq<char>) -> Seq<char> {
    "Bad grapheme: \""@ + g + "\""@
}

/// The table of a grapheme, or what is said of a grapheme without one.
pub open spec fn grapheme_table(g: Seq<char>) -> Result<Seq<Seq<SlotModel>>, Seq<char>> {
    match notation_of(g) {
        Some(text) => table_or_complaint(text),
        None => Err(bad_grapheme(g)),
    }
}

/// The table of the graphemes up to place `n`, put side by side in their
/// order, or the first complaint.
pub open spec fn word_table(graphemes: Seq<Seq<char>>, n: int) -> Result<
    Seq<Seq<SlotModel>>,
    Seq<char>,
>
    decreases n,
{
    if n <= 1 {
        grapheme_table(graphemes[0])
    } else {
        match word_table(graphemes, n - 1) {
            Ok(so_far) => match grapheme_table(graphemes[n - 1]) {
                Ok(next) => Ok(joined_tables(so_far, next)),
                Err(e) => Err(e),
            },
            Err(e) => Err(e),
        }
    }
}

/// The table of the graphemes up to place `n`, put side by side in their
/// order, or the first complaint, as far as the tables fit: a table with
/// fewer tiers than those before it cannot be put beside them, and neither
/// can the tables of no graphemes.
pub open spec fn joined_word(graphemes: Seq<Seq<char>>, n: int) -> Option<
    Result<Seq<Seq<SlotModel>>, Seq<char>>,
>
    decreases n,
{
    if n <= 0 {
        None
    } else if n == 1 {
        Some(grapheme_table(graphemes[0]))
    } else {
        match joined_word(graphemes, n - 1) {
            Some(Ok(so_far)) => match grapheme_table(graphemes[n - 1]) {
                Ok(next) => if so_far.len() <= next.len() {
                    Some(Ok(joined_tables(so_far, next)))
                } else {
                    None
                },
                Err(e) => Some(Err(e)),
            },
            Some(Err(e)) => Some(Err(e)),
            None => None,
        }
    }
}

/// The table of a word, or what is said of a word without one, as far as
/// `rounds` rounds of voice assimilation are enough, every letter can be
/// read, and the tables of the graphemes fit side by side.
pub open spec fn spoken_within(word: Seq<char>, rounds: usize) -> Option<
    Result<Seq<Seq<SlotModel>>, Seq<char>>,
> {
    if !convertible_within(word, rounds) {
        None
    } else {
        match converted(word) {
            Ok(graphemes) => joined_word(graphemes, graphemes.len() as int),
            Err(e) => Some(Err(parse_error(e))),
        }
    }
}

/// Tables put side by side have as many tiers as the first of them.
pub proof fn lemma_word_table_tiers(graphemes: Seq<Seq<char>>, n: int)
    requires
        n >= 1,
        word_table(graphemes, n) is Ok,
    ensures
        grapheme_table(graphemes[0]) is Ok,
        word_table(graphemes, n)->Ok_0.len() == grapheme_table(graphemes[0])->Ok_0.len(),
    decreases n,
{
    if n > 1 {
        lemma_word_table_tiers(graphemes, n - 1);
    }
}

/// Where the tables of the graphemes can be put side by side, they fit.
pub proof fn lemma_joined_word(graphemes: Seq<Seq<char>>, n: int)
    requires
        can_be_joined(graphemes),
        1 <= n <= graphemes.len(),
    ensures
        joined_word(graphemes, n) == Some(word_table(graphemes, n)),
    decreases n,
{
    if n > 1 {
        lemma_joined_word(graphemes, n - 1);
        if word_table(graphemes, n - 1) is Ok {
            lemma_word_table_tiers(graphemes, n - 1);
            assert(grapheme_table(graphemes[n - 1]) is Ok ==> grapheme_table(
                graphemes[0],
            )->Ok_0.len() <= grapheme_table(graphemes[n - 1])->Ok_0.len());
        }
    }
}

/// Whether the tables of the graphemes can be put side by side: each has at
/// least as many tiers as the first.
pub open spec fn can_be_joined(graphemes: Seq<Seq<char>>) -> bool {
    forall|i: int|
        1 <= i < graphemes.len() ==> match (
            grapheme_table(graphemes[0]),
            #[trigger] grapheme_table(graphemes[i]),
        ) {
            (Ok(first), Ok(next)) => first.len() <= next.len(),
            _ => true,
        }
}

/// The graphemes of a list as mathematical values.
pub open spec fn texts_view(list: Seq<String>) -> Seq<Seq<char>> {
    Seq::new(list.len(), |i: int| list[i]@)
}

/// A converter from Hungarian graphemes to tables of seven tiers.
pub struct HungarianTable {
    number_of_tiers: usize,
    tier_names: Vec<&'static str>,
    autosegments: Vec<&'static str>,
    no_ocp: HashSet<usize>,
}

/// The names of a list as mathematical values.
pub open spec fn names_view(list: Seq<&'static str>) -> Seq<Seq<char>> {
    Seq::new(list.len(), |i: int| list[i]@)
}

/// The names of the tiers, from the first tier to the last.
pub open spec fn tier_names() -> Seq<Seq<char>> {
    seq!["tongue"@, "jaw"@, "lips"@, "voice"@, "airflow"@, "time"@, "eventuality"@]
}

/// The names of the autosegments: those of the tongue, the jaw, the lips, the
/// voice, the airflow, time and eventuality, in this order.
pub open spec fn autosegments() -> Seq<Seq<char>> {
    seq!["neutral"@, "front"@, "back"@, "dentialveolar"@, "coronal"@, "palatal"@, "velar"@, "extra-low"@, "low"@, "mid"@, "mid-high"@, "high"@, "rounded"@, "unrounded"@, "closed"@, "approximate"@, "lower-to-teeth"@, "voiced"@, "voiceless"@, "open"@, "slit"@, "stop"@, "lateral"@, "nasal"@, "approximate"@, "trill"@, "X"@, "state"@, "transition"@, "event"@]
}

impl HungarianTable {
    /// The names of the tiers.
    pub closed spec fn tiers(&self) -> Seq<Seq<char>> {
        names_view(self.tier_names@)
    }

    /// The names of the autosegments.
    pub closed spec fn segments(&self) -> Seq<Seq<char>> {
        names_view(self.autosegments@)
    }

    /// The tiers, by index, on which equal neighbours are not merged.
    pub closed spec fn unmerged(&self) -> Set<usize> {
        self.no_ocp@
    }

    /// The number of tiers.
    pub closed spec fn count(&self) -> usize {
        self.number_of_tiers
    }

    /// The table of a grapheme: what the notation of the grapheme writes.
    /// A grapheme without a notation is a bad grapheme.
    pub fn from_grapheme<'a>(grapheme: &'a str) -> (result: Result<Table<'static>, String>)
        ensures
            match result {
                Ok(t) => grapheme_table(grapheme@) == Ok::<Seq<Seq<SlotModel>>, Seq<char>>(t@),
                Err(e) => grapheme_table(grapheme@) == Err::<Seq<Seq<SlotModel>>, Seq<char>>(e@),
            },
    {
        match notation(grapheme) {
            Some(text) => Table::from_str(text),
            None => {
                let mut complaint = String::from_str("Bad grapheme: \"");
                complaint.append(grapheme);
                complaint.append("\"");
                Err(complaint)
            },
        }
    }

    /// The table of a word given by its graphemes: the tables of the
    /// graphemes put side by side in their order. The first grapheme that
    /// gives no table ends the work with its complaint.
    pub fn from_graphemes(graphemes: &Vec<String>) -> (result: Result<Table<'static>, String>)
        requires
            graphemes.len() > 0,
            can_be_joined(texts_view(graphemes@)),
        ensures
            match result {
                Ok(t) => word_table(texts_view(graphemes@), graphemes.len() as int) == Ok::<
                    Seq<Seq<SlotModel>>,
                    Seq<char>,
                >(t@),
                Err(e) => word_table(texts_view(graphemes@), graphemes.len() as int) == Err::<
                    Seq<Seq<SlotModel>>,
                    Seq<char>,
                >(e@),
            },
    {
        let ghost all = texts_view(graphemes@);
        let mut result = match HungarianTable::from_grapheme(graphemes[0].as_str()) {
            Ok(tab) => tab,
            Err(e) => {
                proof {
                    lemma_complaint_stays(all, 1, graphemes.len() as int);
                }
                return Err(e);
            },
        };
        let ghost first = result@;
        let mut i: usize = 1;
        while i < graphemes.len()
            invariant
                1 <= i <= graphemes.len(),
                all == texts_view(graphemes@),
                can_be_joined(all),
                grapheme_table(all[0]) == Ok::<Seq<Seq<SlotModel>>, Seq<char>>(first),
                result@.len() == first.len(),
                word_table(all, i as int) == Ok::<Seq<Seq<SlotModel>>, Seq<char>>(result@),
            decreases graphemes.len() - i,
        {
            match HungarianTable::from_grapheme(graphemes[i].as_str()) {
                Ok(tab) => {
                    proof {
                        assert(grapheme_table(all[i as int]) == Ok::<
                            Seq<Seq<SlotModel>>,
                            Seq<char>,
                        >(tab@));
                    }
                    result = result.concatenate(&tab);
                },
                Err(e) => {
                    proof {
                        lemma_complaint_stays(all, i + 1, graphemes.len() as int);
                    }
                    return Err(e);
                },
            }
            i += 1;
        }
        Ok(result)
    }
}

impl HungarianTable {
    /// The table of a word given by its graphemes as
    /// [`HungarianTable::from_graphemes`] gives it, as far as the tables of
    /// the graphemes fit side by side, and nothing where they do not or
    /// where there is no grapheme: see [`joined_word`].
    pub fn join_graphemes(graphemes: &Vec<String>) -> (result: Option<
        Result<Table<'static>, String>,
    >)
        ensures
            match result {
                Some(Ok(t)) => joined_word(texts_view(graphemes@), graphemes.len() as int) == Some(
                    Ok::<Seq<Seq<SlotModel>>, Seq<char>>(t@),
                ),
                Some(Err(e)) => joined_word(texts_view(graphemes@), graphemes.len() as int)
                    == Some(Err::<Seq<Seq<SlotModel>>, Seq<char>>(e@)),
                None => joined_word(texts_view(graphemes@), graphemes.len() as int) is None,
            },
    {
        let ghost all = texts_view(graphemes@);
        if graphemes.len() == 0 {
            return None;
        }
        let mut result = match HungarianTable::from_grapheme(graphemes[0].as_str()) {
            Ok(tab) => tab,
            Err(e) => {
                proof {
                    lemma_joined_complaint_stays(all, 1, graphemes.len() as int);
                }
                return Some(Err(e));
            },
        };
        let mut i: usize = 1;
        while i < graphemes.len()
            invariant
                1 <= i <= graphemes.len(),
                all == texts_view(graphemes@),
                joined_word(all, i as int) == Some(Ok::<Seq<Seq<SlotModel>>, Seq<char>>(result@)),
            decreases graphemes.len() - i,
        {
            match HungarianTable::from_grapheme(graphemes[i].as_str()) {
                Ok(tab) => {
                    proof {
                        assert(grapheme_table(all[i as int]) == Ok::<
                            Seq<Seq<SlotModel>>,
                            Seq<char>,
                        >(tab@));
                    }
                    if result.tiers.len() > tab.tiers.len() {
                        proof {
                            lemma_joined_nothing_stays(all, i + 1, graphemes.len() as int);
                        }
                        return None;
                    }
                    result = result.concatenate(&tab);
                },
                Err(e) => {
                    proof {
                        lemma_joined_complaint_stays(all, i + 1, graphemes.len() as int);
                    }
                    return Some(Err(e));
                },
            }
            i += 1;
        }
        Some(Ok(result))
    }

    /// The table of a word as [`GraphemeTabular::from_string`] gives it, as
    /// far as `rounds` rounds of voice assimilation are enough, every letter
    /// can be read, and the tables of the graphemes fit side by side, and
    /// nothing where not: see [`spoken_within`].
    pub fn from_string_within(&self, graphemes: &'static str, rounds: usize) -> (result: Option<
        Result<Table<'static>, String>,
    >)
        ensures
            match result {
                Some(Ok(t)) => spoken_within(graphemes@, rounds) == Some(
                    Ok::<Seq<Seq<SlotModel>>, Seq<char>>(t@),
                ),
                Some(Err(e)) => spoken_within(graphemes@, rounds) == Some(
                    Err::<Seq<Seq<SlotModel>>, Seq<char>>(e@),
                ),
                None => spoken_within(graphemes@, rounds) is None,
            },
    {
        match convert_graphemes_within(graphemes, rounds) {
            Some(Ok(gr)) => {
                proof {
                    assert(texts_view(gr@) =~= graphemes_view(gr@));
                }
                HungarianTable::join_graphemes(&gr)
            },
            Some(Err(e)) => {
                let mut complaint = String::from_str("Parse error: ");
                complaint.append(e.as_str());
                Some(Err(complaint))
            },
            None => None,
        }
    }
}

/// A word that can be read, as [`GraphemeTabular::from_string`] asks, and
/// that can be converted with `rounds` rounds has within these rounds the
/// table that it has without a bound.
pub proof fn bounded_reading_agrees(word: Seq<char>, rounds: usize)
    requires
        convertible_within(word, rounds),
        converted(word) matches Ok(list) ==> can_be_joined(list),
    ensures
        spoken_within(word, rounds) == Some(spoken(word)),
{
    lemma_convertible_within(word, rounds);
    match converted(word) {
        Ok(list) => {
            let single = crate::graphemes::single_letters(word).unwrap();
            let text = crate::graphemes::merged(
                crate::graphemes::settled(crate::graphemes::combined(single).unwrap()),
            ).unwrap();
            lemma_simplified_len(text, 0, false);
            lemma_joined_word(list, list.len() as int);
        },
        Err(_) => {},
    }
}

/// Once a grapheme has given no table, the complaint stays.
pub proof fn lemma_joined_complaint_stays(graphemes: Seq<Seq<char>>, n: int, m: int)
    requires
        1 <= n <= m,
        joined_word(graphemes, n) matches Some(Err(_)),
    ensures
        joined_word(graphemes, m) == joined_word(graphemes, n),
    decreases m - n,
{
    if n < m {
        lemma_joined_complaint_stays(graphemes, n, m - 1);
    }
}

/// Once the tables have not fit, nothing comes of them.
pub proof fn lemma_joined_nothing_stays(graphemes: Seq<Seq<char>>, n: int, m: int)
    requires
        1 <= n <= m,
        joined_word(graphemes, n) is None,
    ensures
        joined_word(graphemes, m) is None,
    decreases m - n,
{
    if n < m {
        lemma_joined_nothing_stays(graphemes, n, m - 1);
    }
}

/// What is said of a word that cannot be converted.
pub open spec fn parse_error(e: Seq<char>) -> Seq<char> {
    "Parse error: "@ + e
}

/// The table of a word, or what is said of a word without one.
pub open spec fn spoken(word: Seq<char>) -> Result<Seq<Seq<SlotModel>>, Seq<char>> {
    match converted(word) {
        Ok(graphemes) => word_table(graphemes, graphemes.len() as int),
        Err(e) => Err(parse_error(e)),
    }
}

impl GraphemeTabular<Table<'static>> for HungarianTable {
    type TierName = &'static str;

    /// The name is the name of a tier.
    open spec fn names_tier(&self, tier_name: &&'static str) -> bool {
        self.tiers().contains(tier_name@)
    }

    /// The index is the index of a tier.
    open spec fn numbers_tier(&self, tier_index: usize) -> bool {
        tier_index < self.tiers().len()
    }

    /// The word can be converted to graphemes, and the tables of its
    /// graphemes can be put side by side.
    open spec fn readable(&self, graphemes: &'static str) -> bool {
        &&& convertible(graphemes@)
        &&& match converted(graphemes@) {
            Ok(list) => can_be_joined(list),
            Err(_) => true,
        }
    }

    /// The converter: seven tiers with their names, the autosegments, and
    /// the tiers of time and eventuality as those without merging.
    fn new() -> (converter: Self)
        ensures
            converter.count() == 7,
            converter.tiers() == tier_names(),
            converter.segments() == autosegments(),
            converter.unmerged() == set![5usize, 6usize],
    {
        let tier_names: Vec<&'static str> = vec!["tongue", "jaw", "lips", "voice", "airflow", "time", "eventuality"];
        let autosegments: Vec<&'static str> = vec!["neutral", "front", "back", "dentialveolar", "coronal", "palatal", "velar", "extra-low", "low", "mid", "mid-high", "high", "rounded", "unrounded", "closed", "approximate", "lower-to-teeth", "voiced", "voiceless", "open", "slit", "stop", "lateral", "nasal", "approximate", "trill", "X", "state", "transition", "event"];
        let mut no_ocp: HashSet<usize> = HashSet::new();
        no_ocp.insert(5);
        no_ocp.insert(6);
        assert(names_view(tier_names@) =~= self::tier_names());
        assert(names_view(autosegments@) =~= self::autosegments());
        assert(no_ocp@ =~= set![5usize, 6usize]);
        HungarianTable { number_of_tiers: 7, tier_names, autosegments, no_ocp }
    }

    /// The index of the tier of a name: the first tier that has the name.
    fn tier_name_to_tier_index(&self, tier_name: &&'static str) -> (index: usize)
        ensures
            index < self.tiers().len(),
            self.tiers()[index as int] == tier_name@,
            forall|k: int| 0 <= k < index ==> self.tiers()[k] != tier_name@,
    {
        let mut i: usize = 0;
        while i < self.tier_names.len()
            invariant
                i <= self.tier_names.len(),
                self.tiers().contains(tier_name@),
                forall|k: int| 0 <= k < i ==> self.tiers()[k] != tier_name@,
            decreases self.tier_names.len() - i,
        {
            if same_text(self.tier_names[i], *tier_name) {
                return i;
            }
            i += 1;
        }
        proof {
            let k = choose|k: int| 0 <= k < self.tiers().len() && self.tiers()[k] == tier_name@;
            assert(self.tiers()[k] != tier_name@);
        }
        0
    }

    /// The name of the tier of an index.
    fn tier_index_to_tier_name(&self, tier_index: usize) -> (name: &'static str)
        ensures
            name@ == self.tiers()[tier_index as int],
    {
        self.tier_names[tier_index]
    }

    /// The table of a word: the tables of its graphemes put side by side.
    fn from_string(&self, graphemes: &'static str) -> (result: Result<Table<'static>, String>)
        ensures
            match result {
                Ok(t) => spoken(graphemes@) == Ok::<Seq<Seq<SlotModel>>, Seq<char>>(t@),
                Err(e) => spoken(graphemes@) == Err::<Seq<Seq<SlotModel>>, Seq<char>>(e@),
            },
    {
        match convert_graphemes(graphemes) {
            Ok(gr) => {
                proof {
                    let single = crate::graphemes::single_letters(graphemes@).unwrap();
                    let word = crate::graphemes::merged(
                        crate::graphemes::settled(crate::graphemes::combined(single).unwrap()),
                    ).unwrap();
                    lemma_simplified_len(word, 0, false);
                    assert(texts_view(gr@) =~= graphemes_view(gr@));
                }
                HungarianTable::from_graphemes(&gr)
            },
            Err(e) => {
                let mut complaint = String::from_str("Parse error: ");
                complaint.append(e.as_str());
                Err(complaint)
            },
        }
    }
}

/// Once a grapheme has given no table, the complaint stays.
pub proof fn lemma_complaint_stays(graphemes: Seq<Seq<char>>, n: int, m: int)
    requires
        1 <= n <= m,
        word_table(graphemes, n) is Err,
    ensures
        word_table(graphemes, m) == word_table(graphemes, n),
    decreases m - n,
{
    if n < m {
        lemma_complaint_stays(graphemes, n, m - 1);
    }
}

} // verus!
