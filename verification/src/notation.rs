use crate::table::Element;
use crate::table::Slot;
use crate::table::SlotModel;
use crate::table::Table;
use crate::table::Tier;
use vstd::prelude::*;
use vstd::std_specs::iter::IteratorSpec;
use vstd::string::StrSliceExecFns;

verus! {

/// A blank, a tab or a line feed.
pub open spec fn is_space(c: char) -> bool {
    c == ' ' || c == '\t' || c == '\n'
}

/// A letter of the English alphabet or a hyphen: what the name of an element
/// is made of.
pub open spec fn is_name_char(c: char) -> bool {
    ('a' <= c && c <= 'z') || ('A' <= c && c <= 'Z') || c == '-'
}

/// A decimal digit.
pub open spec fn is_digit(c: char) -> bool {
    '0' <= c && c <= '9'
}

/// The place after the characters of a class that follow one another from
/// `p` on, as many as there are.
pub open spec fn run_of(s: Seq<char>, p: int, class: spec_fn(char) -> bool) -> int
    decreases s.len() - p,
{
    if 0 <= p < s.len() && class(s[p]) {
        run_of(s, p + 1, class)
    } else {
        p
    }
}

/// The place after the blanks, tabs and line feeds that follow from `p` on.
pub open spec fn after_spaces(s: Seq<char>, p: int) -> int {
    run_of(s, p, |c: char| is_space(c))
}

/// The number that a row of decimal digits writes.
pub open spec fn value_of(digits: Seq<char>) -> nat
    decreases digits.len(),
{
    if digits.len() == 0 {
        0
    } else {
        value_of(digits.drop_last()) * 10 + (digits.last() as u32 - '0' as u32) as nat
    }
}

/// The slots that a count and an element stand for: so many slots with the
/// element, the first aligned on its left and the last on its right.
pub open spec fn repeated(e: Option<Seq<char>>, n: nat) -> Seq<SlotModel> {
    Seq::new(
        n,
        |i: int| SlotModel { element: e, left_aligned: i == 0, right_aligned: i == n - 1 },
    )
}

/// An element at `p`: a name, as long as it goes, or an underscore for no
/// element. With it the place after it.
pub open spec fn element_at(s: Seq<char>, p: int) -> Option<(Option<Seq<char>>, int)> {
    let q = run_of(s, p, |c: char| is_name_char(c));
    if q > p {
        Some((Some(s.subrange(p, q)), q))
    } else if 0 <= p < s.len() && s[p] == '_' {
        Some((None, p + 1))
    } else {
        None
    }
}

/// A count, blank space and an element at `p`. A count that does not fit in
/// the range of `usize` is no count.
pub open spec fn counted_at(s: Seq<char>, p: int) -> Option<(Seq<SlotModel>, int)> {
    let q = run_of(s, p, |c: char| is_digit(c));
    if q > p && value_of(s.subrange(p, q)) <= usize::MAX {
        let r = after_spaces(s, q);
        if r > q {
            match element_at(s, r) {
                Some((e, t)) => Some((repeated(e, value_of(s.subrange(p, q))), t)),
                None => None,
            }
        } else {
            None
        }
    } else {
        None
    }
}

/// The slots of one item at `p`: a count with an element, or else an element
/// alone, which stands for one slot aligned on both sides.
pub open spec fn slot_at(s: Seq<char>, p: int) -> Option<(Seq<SlotModel>, int)> {
    match counted_at(s, p) {
        Some(found) => Some(found),
        None => match element_at(s, p) {
            Some((e, q)) => Some((repeated(e, 1), q)),
            None => None,
        },
    }
}

/// The slots of the items at `p`, which blank space separates, as many as
/// there are and at least one.
pub open spec fn slots_at(s: Seq<char>, p: int) -> Option<(Seq<SlotModel>, int)>
    decreases s.len() - p,
{
    match slot_at(s, p) {
        None => None,
        Some((first, q)) => {
            let r = after_spaces(s, q);
            if r > q && r > p && r <= s.len() {
                match slots_at(s, r) {
                    Some((rest, t)) => Some((first + rest, t)),
                    None => Some((first, q)),
                }
            } else {
                Some((first, q))
            }
        },
    }
}

/// A tier at `p`: its slots, and a semicolon after them if there is one,
/// with or without blank space before it.
pub open spec fn tier_at(s: Seq<char>, p: int) -> Option<(Seq<SlotModel>, int)> {
    match slots_at(s, p) {
        None => None,
        Some((slots, q)) => {
            let r = after_spaces(s, q);
            if 0 <= r < s.len() && s[r] == ';' {
                Some((slots, r + 1))
            } else {
                Some((slots, q))
            }
        },
    }
}

/// The tiers at `p`, which commas separate, with or without blank space
/// around them, as many as there are and at least one.
pub open spec fn tiers_at(s: Seq<char>, p: int) -> Option<(Seq<Seq<SlotModel>>, int)>
    decreases s.len() - p,
{
    match tier_at(s, p) {
        None => None,
        Some((first, q)) => {
            let r = after_spaces(s, q);
            if 0 <= r < s.len() && s[r] == ',' && r + 1 > p {
                proof {
                    lemma_run_bounds(s, r + 1, |c: char| is_space(c));
                }
                match tiers_at(s, after_spaces(s, r + 1)) {
                    Some((rest, t)) => Some((seq![first] + rest, t)),
                    None => Some((seq![first], q)),
                }
            } else {
                Some((seq![first], q))
            }
        },
    }
}

/// The table that a text writes, if it writes one: tiers with nothing but
/// blank space before and after them.
pub open spec fn table_of(s: Seq<char>) -> Option<Seq<Seq<SlotModel>>> {
    match tiers_at(s, after_spaces(s, 0)) {
        Some((tiers, q)) => if after_spaces(s, q) == s.len() {
            Some(tiers)
        } else {
            None
        },
        None => None,
    }
}

/// What is said of a text that writes no table.
pub open spec fn no_table() -> Seq<char> {
    "the text writes no table"@
}

/// The table that a text writes, or what is said of a text that writes
/// none.
pub open spec fn table_or_complaint(text: Seq<char>) -> Result<Seq<Seq<SlotModel>>, Seq<char>> {
    match table_of(text) {
        Some(t) => Ok(t),
        None => Err(no_table()),
    }
}

/// A run ends at or after its start, and within the text.
pub proof fn lemma_run_bounds(s: Seq<char>, p: int, class: spec_fn(char) -> bool)
    requires
        0 <= p <= s.len(),
    ensures
        p <= run_of(s, p, class) <= s.len(),
    decreases s.len() - p,
{
    if p < s.len() && class(s[p]) {
        lemma_run_bounds(s, p + 1, class);
    }
}

/// The number that some digits write grows with each digit that follows.
pub proof fn lemma_value_grows(digits: Seq<char>, n: int)
    requires
        0 <= n <= digits.len(),
    ensures
        value_of(digits.subrange(0, n)) <= value_of(digits),
    decreases digits.len() - n,
{
    if n < digits.len() {
        lemma_value_grows(digits, n + 1);
        assert(digits.subrange(0, n + 1).drop_last() =~= digits.subrange(0, n));
    } else {
        assert(digits.subrange(0, n) =~= digits);
    }
}

/// The slots of a list as mathematical values.
pub open spec fn slots_view(slots: Seq<Slot>) -> Seq<SlotModel> {
    Seq::new(slots.len(), |i: int| slots[i]@)
}

/// The tiers of a list as mathematical values.
pub open spec fn tiers_view(tiers: Seq<Tier>) -> Seq<Seq<SlotModel>> {
    Seq::new(tiers.len(), |i: int| tiers[i]@)
}

/// The characters of a text, one by one.
pub fn chars_of(text: &str) -> (chars: Vec<char>)
    ensures
        chars@ == text@,
{
    let mut chars: Vec<char> = Vec::new();
    let ghost all: Seq<char> = text@;
    for c in it: text.chars()
        invariant
            it.seq() == all,
            chars@.len() == it.index(),
            forall|i: int| 0 <= i < chars@.len() ==> chars@[i] == all[i],
    {
        chars.push(c);
    }
    assert(chars@ =~= text@);
    chars
}

/// A text that is being read, with its characters laid out for looking at
/// them one by one.
pub struct Reader<'a> {
    text: &'a str,
    chars: Vec<char>,
}

impl<'a> Reader<'a> {
    /// The characters laid out are those of the text.
    pub closed spec fn wf(&self) -> bool {
        self.chars@ == self.text@
    }

    /// The characters of the text.
    pub closed spec fn view(&self) -> Seq<char> {
        self.text@
    }

    /// A reader of `text`.
    pub fn new(text: &'a str) -> (reader: Self)
        ensures
            reader.wf(),
            reader@ == text@,
    {
        Reader { text, chars: chars_of(text) }
    }

    /// How many characters the text has.
    pub fn len(&self) -> (n: usize)
        requires
            self.wf(),
        ensures
            n == self@.len(),
    {
        self.chars.len()
    }

    /// The place after the blank space at `p`.
    pub fn spaces(&self, p: usize) -> (q: usize)
        requires
            self.wf(),
            p <= self@.len(),
        ensures
            q == after_spaces(self@, p as int),
            p <= q <= self@.len(),
    {
        let mut q = p;
        while q < self.chars.len() && (self.chars[q] == ' ' || self.chars[q] == '\t'
            || self.chars[q] == '\n')
            invariant
                self.wf(),
                p <= q <= self@.len(),
                after_spaces(self@, q as int) == after_spaces(self@, p as int),
            decreases self@.len() - q,
        {
            q += 1;
        }
        q
    }

    /// The place after the name at `p`.
    pub fn name(&self, p: usize) -> (q: usize)
        requires
            self.wf(),
            p <= self@.len(),
        ensures
            q == run_of(self@, p as int, |c: char| is_name_char(c)),
            p <= q <= self@.len(),
    {
        let mut q = p;
        while q < self.chars.len() && (('a' <= self.chars[q] && self.chars[q] <= 'z') || ('A'
            <= self.chars[q] && self.chars[q] <= 'Z') || self.chars[q] == '-')
            invariant
                self.wf(),
                p <= q <= self@.len(),
                run_of(self@, q as int, |c: char| is_name_char(c)) == run_of(
                    self@,
                    p as int,
                    |c: char| is_name_char(c),
                ),
            decreases self@.len() - q,
        {
            q += 1;
        }
        q
    }

    /// The place after the digits at `p`.
    pub fn digits(&self, p: usize) -> (q: usize)
        requires
            self.wf(),
            p <= self@.len(),
        ensures
            q == run_of(self@, p as int, |c: char| is_digit(c)),
            p <= q <= self@.len(),
            forall|i: int| p <= i < q ==> is_digit(#[trigger] self@[i]),
    {
        let mut q = p;
        while q < self.chars.len() && '0' <= self.chars[q] && self.chars[q] <= '9'
            invariant
                self.wf(),
                p <= q <= self@.len(),
                run_of(self@, q as int, |c: char| is_digit(c)) == run_of(
                    self@,
                    p as int,
                    |c: char| is_digit(c),
                ),
                forall|i: int| p <= i < q ==> is_digit(#[trigger] self@[i]),
            decreases self@.len() - q,
        {
            q += 1;
        }
        q
    }

    /// The number that the digits from `p` to `q` write, if it fits.
    pub fn number(&self, p: usize, q: usize) -> (n: Option<usize>)
        requires
            self.wf(),
            p <= q <= self@.len(),
            forall|i: int| p <= i < q ==> is_digit(#[trigger] self@[i]),
        ensures
            match n {
                Some(n) => n == value_of(self@.subrange(p as int, q as int)),
                None => value_of(self@.subrange(p as int, q as int)) > usize::MAX,
            },
    {
        let ghost digits = self@.subrange(p as int, q as int);
        let mut n: usize = 0;
        let mut i: usize = p;
        proof {
            assert(digits.subrange(0, 0) =~= Seq::empty());
        }
        while i < q
            invariant
                self.wf(),
                p <= i <= q <= self@.len(),
                digits == self@.subrange(p as int, q as int),
                forall|k: int| p <= k < q ==> is_digit(#[trigger] self@[k]),
                n == value_of(digits.subrange(0, i - p)),
            decreases q - i,
        {
            let c = self.chars[i];
            let d = (c as u32 - '0' as u32) as usize;
            proof {
                assert(is_digit(self@[i as int]));
                assert(digits.subrange(0, i + 1 - p).drop_last() =~= digits.subrange(0, i - p));
                assert(digits.subrange(0, i + 1 - p).last() == c);
                lemma_value_grows(digits, i + 1 - p);
            }
            if n > (usize::MAX - d) / 10 {
                return None;
            }
            n = n * 10 + d;
            i += 1;
        }
        proof {
            assert(digits.subrange(0, q - p) =~= digits);
        }
        Some(n)
    }

    /// The element at `p`, if there is one, and the place after it.
    pub fn element(&self, p: usize) -> (found: Option<(Element<'a>, usize)>)
        requires
            self.wf(),
            p <= self@.len(),
        ensures
            match found {
                Some((e, q)) => element_at(self@, p as int) == Some((e@, q as int)) && p < q
                    <= self@.len(),
                None => element_at(self@, p as int) is None,
            },
    {
        let q = self.name(p);
        if q > p {
            Some((Element::Element(self.text.substring_char(p, q)), q))
        } else if p < self.chars.len() && self.chars[p] == '_' {
            Some((Element::Null, p + 1))
        } else {
            None
        }
    }

    /// The slots that a count and an element stand for.
    pub fn repeat(e: Element<'a>, n: usize) -> (slots: Vec<Slot<'a>>)
        ensures
            slots_view(slots@) == repeated(e@, n as nat),
    {
        let mut slots: Vec<Slot<'a>> = Vec::new();
        let mut i: usize = 0;
        while i < n
            invariant
                i <= n,
                slots@.len() == i,
                forall|k: int| 0 <= k < i ==> (#[trigger] slots@[k])@ == repeated(e@, n as nat)[k],
            decreases n - i,
        {
            let mut slot = Slot::new(e);
            if i == 0 {
                slot.set_left_aligned(true);
            }
            if i == n - 1 {
                slot.set_right_aligned(true);
            }
            slots.push(slot);
            i += 1;
        }
        assert(slots_view(slots@) =~= repeated(e@, n as nat));
        slots
    }

    /// The slots of a count with an element at `p`, if there is one.
    pub fn counted(&self, p: usize) -> (found: Option<(Vec<Slot<'a>>, usize)>)
        requires
            self.wf(),
            p <= self@.len(),
        ensures
            match found {
                Some((slots, q)) => counted_at(self@, p as int) == Some(
                    (slots_view(slots@), q as int),
                ) && p < q <= self@.len(),
                None => counted_at(self@, p as int) is None,
            },
    {
        let q = self.digits(p);
        if q == p {
            return None;
        }
        let n = match self.number(p, q) {
            Some(n) => n,
            None => {
                return None;
            },
        };
        let r = self.spaces(q);
        if r == q {
            return None;
        }
        match self.element(r) {
            Some((e, t)) => Some((Self::repeat(e, n), t)),
            None => None,
        }
    }

    /// The slots of one item at `p`, if there is one.
    pub fn slot(&self, p: usize) -> (found: Option<(Vec<Slot<'a>>, usize)>)
        requires
            self.wf(),
            p <= self@.len(),
        ensures
            match found {
                Some((slots, q)) => slot_at(self@, p as int) == Some((slots_view(slots@), q as int))
                    && p < q <= self@.len(),
                None => slot_at(self@, p as int) is None,
            },
    {
        match self.counted(p) {
            Some(found) => Some(found),
            None => match self.element(p) {
                Some((e, q)) => Some((Self::repeat(e, 1), q)),
                None => None,
            },
        }
    }

    /// The slots of the items at `p`, if there is one.
    pub fn slots(&self, p: usize) -> (found: Option<(Vec<Slot<'a>>, usize)>)
        requires
            self.wf(),
            p <= self@.len(),
        ensures
            match found {
                Some((slots, q)) => slots_at(self@, p as int) == Some(
                    (slots_view(slots@), q as int),
                ) && p < q <= self@.len(),
                None => slots_at(self@, p as int) is None,
            },
        decreases self@.len() - p,
    {
        match self.slot(p) {
            None => None,
            Some((first, q)) => {
                let r = self.spaces(q);
                if r > q {
                    match self.slots(r) {
                        Some((rest, t)) => {
                            let mut all = first;
                            let ghost head = all@;
                            let mut i: usize = 0;
                            while i < rest.len()
                                invariant
                                    i <= rest.len(),
                                    all@.len() == head.len() + i,
                                    forall|k: int| 0 <= k < head.len() ==> all@[k] == head[k],
                                    forall|k: int|
                                        0 <= k < i ==> all@[head.len() + k] == rest@[k],
                                decreases rest.len() - i,
                            {
                                all.push(rest[i]);
                                i += 1;
                            }
                            assert(slots_view(all@) =~= slots_view(head) + slots_view(rest@));
                            Some((all, t))
                        },
                        None => Some((first, q)),
                    }
                } else {
                    Some((first, q))
                }
            },
        }
    }

    /// The tier at `p`, if there is one.
    pub fn tier(&self, p: usize) -> (found: Option<(Tier<'a>, usize)>)
        requires
            self.wf(),
            p <= self@.len(),
        ensures
            match found {
                Some((tier, q)) => tier_at(self@, p as int) == Some((tier@, q as int)) && p < q
                    <= self@.len(),
                None => tier_at(self@, p as int) is None,
            },
    {
        match self.slots(p) {
            None => None,
            Some((slots, q)) => {
                let r = self.spaces(q);
                let tier = Tier { slots };
                assert(tier@ =~= slots_view(tier.slots@));
                if r < self.chars.len() && self.chars[r] == ';' {
                    Some((tier, r + 1))
                } else {
                    Some((tier, q))
                }
            },
        }
    }

    /// The tiers at `p`, if there is one.
    pub fn tiers(&self, p: usize) -> (found: Option<(Vec<Tier<'a>>, usize)>)
        requires
            self.wf(),
            p <= self@.len(),
        ensures
            match found {
                Some((tiers, q)) => tiers_at(self@, p as int) == Some(
                    (tiers_view(tiers@), q as int),
                ) && p < q <= self@.len(),
                None => tiers_at(self@, p as int) is None,
            },
        decreases self@.len() - p,
    {
        match self.tier(p) {
            None => None,
            Some((first, q)) => {
                let r = self.spaces(q);
                if r < self.chars.len() && self.chars[r] == ',' {
                    let start = self.spaces(r + 1);
                    match self.tiers(start) {
                        Some((rest, t)) => {
                            let ghost head = first@;
                            let mut all: Vec<Tier<'a>> = Vec::new();
                            all.push(first);
                            let mut rest = rest;
                            let ghost tail = tiers_view(rest@);
                            all.append(&mut rest);
                            assert(tiers_view(all@) =~= seq![head] + tail);
                            Some((all, t))
                        },
                        None => {
                            let mut all: Vec<Tier<'a>> = Vec::new();
                            let ghost head = first@;
                            all.push(first);
                            assert(tiers_view(all@) =~= seq![head]);
                            Some((all, q))
                        },
                    }
                } else {
                    let mut all: Vec<Tier<'a>> = Vec::new();
                    let ghost head = first@;
                    all.push(first);
                    assert(tiers_view(all@) =~= seq![head]);
                    Some((all, q))
                }
            },
        }
    }
}

/// Reads a table from a text: see [`table_of`].
pub fn read_table<'a>(text: &'a str) -> (table: Option<Table<'a>>)
    ensures
        match table {
            Some(t) => table_of(text@) == Some(t@),
            None => table_of(text@) is None,
        },
{
    let reader = Reader::new(text);
    let start = reader.spaces(0);
    match reader.tiers(start) {
        Some((tiers, q)) => {
            if reader.spaces(q) == reader.len() {
                let table = Table { tiers };
                assert(table@ =~= tiers_view(table.tiers@));
                Some(table)
            } else {
                None
            }
        },
        None => None,
    }
}

} // verus!
