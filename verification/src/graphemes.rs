use crate::notation::chars_of;
use crate::rewriting::rewrite;
use crate::rewriting::rewritten;
use crate::rewriting::rules_at;
use crate::rewriting::rules_of;
use crate::rewriting::rules_view;
use crate::rewriting::Rule;
use crate::rewriting::RuleModel;
use vstd::prelude::*;
use vstd::string::StrSliceExecFns;
use vstd::string::StringExecFns;

verus! {

/// The rules that write each sound of the spelling with one letter: a
/// doubled letter becomes a capital, a digraph a letter with a mark, and a
/// plain `s` the letter for its sound.
pub open spec fn digraphs() -> Seq<char> {
    "bb>B ccs>Č cs>č cc>C dd>D ff>F ggy>Ď gy>ď gg>G hh>H jj>J kk>K lly>J ly>j ll>L mm>M nny>Ń ny>ń nn>N pp>P rr>R ssz>S sz>s ss>Š s>š tty>Ť ty>ť tt>T vv>V zzs>Ž zs>ž zz>Z"@
}

/// The rules that write each sound of the spelling with one letter: a
/// doubled letter becomes a capital, a digraph a letter with a mark, and a
/// plain `s` the letter for its sound.
pub fn digraphs_text() -> (text: &'static str)
    ensures
        text@ == digraphs(),
{
    "bb>B ccs>Č cs>č cc>C dd>D ff>F ggy>Ď gy>ď gg>G hh>H jj>J kk>K lly>J ly>j ll>L mm>M nny>Ń ny>ń nn>N pp>P rr>R ssz>S sz>s ss>Š s>š tty>Ť ty>ť tt>T vv>V zzs>Ž zs>ž zz>Z"
}

/// The rules that merge a coronal stop, a lateral or a nasal with the
/// palatal or sibilant after it into one geminate.
pub open spec fn combinations() -> Seq<char> {
    "Dj>Ď DJ>Ď dj>Ď dJ>Ď Tj>Ť TJ>Ť tj>Ť tJ>Ť Ts>C TS>C ts>C tS>C Tš>Č TŠ>Č tš>Č tŠ>Č ďj>Ď Ďj>Ď ďJ>Ď ĎJ>Ď ťj>Ť Ťj>Ť ťJ>Ť ŤJ>Ť lj>J Lj>J lJ>J LJ>J nj>Ń Nj>Ń nJ>Ń NJ>Ń ńj>Ń Ńj>Ń ńJ>Ń ŃJ>Ń"@
}

/// The rules that merge a coronal stop, a lateral or a nasal with the
/// palatal or sibilant after it into one geminate.
pub fn combinations_text() -> (text: &'static str)
    ensures
        text@ == combinations(),
{
    "Dj>Ď DJ>Ď dj>Ď dJ>Ď Tj>Ť TJ>Ť tj>Ť tJ>Ť Ts>C TS>C ts>C tS>C Tš>Č TŠ>Č tš>Č tŠ>Č ďj>Ď Ďj>Ď ďJ>Ď ĎJ>Ď ťj>Ť Ťj>Ť ťJ>Ť ŤJ>Ť lj>J Lj>J lJ>J LJ>J nj>Ń Nj>Ń nJ>Ń NJ>Ń ńj>Ń Ńj>Ń ńJ>Ń ŃJ>Ń"
}

/// The rules that take the voice from an obstruent before a voiceless one.
pub open spec fn devoicing() -> Seq<char> {
    "B>p b>p d>t D>t G>k g>k Ď>ť ď>ť V>f v>f Ž>š ž>š Z>s z>s"@
}

/// The rules that take the voice from an obstruent before a voiceless one.
pub fn devoicing_text() -> (text: &'static str)
    ensures
        text@ == devoicing(),
{
    "B>p b>p d>t D>t G>k g>k Ď>ť ď>ť V>f v>f Ž>š ž>š Z>s z>s"
}

/// The rules that give voice to an obstruent before a voiced one.
pub open spec fn voicing() -> Seq<char> {
    "Č>dž č>dž C>dz c>dz F>v f>v K>g k>g P>b p>b S>z s>z Š>ž š>ž Ť>ď ť>ď T>d t>d"@
}

/// The rules that give voice to an obstruent before a voiced one.
pub fn voicing_text() -> (text: &'static str)
    ensures
        text@ == voicing(),
{
    "Č>dž č>dž C>dz c>dz F>v f>v K>g k>g P>b p>b S>z s>z Š>ž š>ž Ť>ď ť>ď T>d t>d"
}

/// The voiceless obstruents.
pub open spec fn voiceless() -> Seq<char> {
    "ČčCcFfHhKkPpSsŠšŤťTt"@
}

/// The voiceless obstruents.
pub fn voiceless_text() -> (text: &'static str)
    ensures
        text@ == voiceless(),
{
    "ČčCcFfHhKkPpSsŠšŤťTt"
}

/// The voiced obstruents that give their voice to what stands before them.
pub open spec fn voiced() -> Seq<char> {
    "BbDdGgĎďŽžZz"@
}

/// The voiced obstruents that give their voice to what stands before them.
pub fn voiced_text() -> (text: &'static str)
    ensures
        text@ == voiced(),
{
    "BbDdGgĎďŽžZz"
}

/// The rules that merge two equal consonants, of which one may be a
/// geminate already, into one geminate. Vowels and single consonants stay;
/// a letter that no rule names cannot be read.
pub open spec fn merging() -> Seq<char> {
    "a>a e>e i>i o>o u>u á>á é>é í>í ó>ó ú>ú ö>ö ő>ő ü>ü ű>ű q>q w>w x>x y>y bb>B bB>B Bb>B b>b B>B cc>C cC>C Cc>C c>c C>C čč>Č čČ>Č Čč>Č č>č Č>Č dd>D dD>D Dd>D d>d D>D ff>F fF>F Ff>F f>f F>F gg>G gG>G Gg>G g>g G>G ďď>Ď ďĎ>Ď Ďď>Ď ď>ď Ď>Ď hh>H hH>H Hh>H h>h H>H jj>J jJ>J Jj>J j>j J>J kk>K kK>K Kk>K k>k K>K l>l mm>M mM>M Mm>M m>m M>M ńń>Ń ńŃ>Ń Ńń>Ń ń>ń Ń>Ń nn>N nN>N Nn>N n>n N>N pp>P pP>P Pp>P p>p P>P rr>R rR>R Rr>R r>r R>R ss>S sS>S Ss>S s>s S>S šš>Š šŠ>Š Šš>Š š>š Š>Š tt>T tT>T Tt>T t>t T>T ťť>Ť ťŤ>Ť Ťť>Ť ť>ť Ť>Ť vv>V vV>V Vv>V v>v V>V z>z žž>Ž žŽ>Ž Žž>Ž ž>ž Ž>Ž"@
}

/// The rules that merge two equal consonants, of which one may be a
/// geminate already, into one geminate. Vowels and single consonants stay;
/// a letter that no rule names cannot be read.
pub fn merging_text() -> (text: &'static str)
    ensures
        text@ == merging(),
{
    "a>a e>e i>i o>o u>u á>á é>é í>í ó>ó ú>ú ö>ö ő>ő ü>ü ű>ű q>q w>w x>x y>y bb>B bB>B Bb>B b>b B>B cc>C cC>C Cc>C c>c C>C čč>Č čČ>Č Čč>Č č>č Č>Č dd>D dD>D Dd>D d>d D>D ff>F fF>F Ff>F f>f F>F gg>G gG>G Gg>G g>g G>G ďď>Ď ďĎ>Ď Ďď>Ď ď>ď Ď>Ď hh>H hH>H Hh>H h>h H>H jj>J jJ>J Jj>J j>j J>J kk>K kK>K Kk>K k>k K>K l>l mm>M mM>M Mm>M m>m M>M ńń>Ń ńŃ>Ń Ńń>Ń ń>ń Ń>Ń nn>N nN>N Nn>N n>n N>N pp>P pP>P Pp>P p>p P>P rr>R rR>R Rr>R r>r R>R ss>S sS>S Ss>S s>s S>S šš>Š šŠ>Š Šš>Š š>š Š>Š tt>T tT>T Tt>T t>t T>T ťť>Ť ťŤ>Ť Ťť>Ť ť>ť Ť>Ť vv>V vV>V Vv>V v>v V>V z>z žž>Ž žŽ>Ž Žž>Ž ž>ž Ž>Ž"
}

/// The vowels.
pub open spec fn vowels() -> Seq<char> {
    "aeiouáéíóúöőüű"@
}

/// The vowels.
pub fn vowels_text() -> (text: &'static str)
    ensures
        text@ == vowels(),
{
    "aeiouáéíóúöőüű"
}

/// The plain consonants.
pub open spec fn plain_consonants() -> Seq<char> {
    "bčcdfgďhjklmńnpqrsšťtvwxyžz"@
}

/// The plain consonants.
pub fn plain_consonants_text() -> (text: &'static str)
    ensures
        text@ == plain_consonants(),
{
    "bčcdfgďhjklmńnpqrsšťtvwxyžz"
}

/// The geminate consonants.
pub open spec fn geminates() -> Seq<char> {
    "BČCDFGĎHJKLMŃNPRSŠŤTVŽZ"@
}

/// The geminate consonants.
pub fn geminates_text() -> (text: &'static str)
    ensures
        text@ == geminates(),
{
    "BČCDFGĎHJKLMŃNPRSŠŤTVŽZ"
}

/// The plain consonant of each geminate, in the order of the geminates.
pub open spec fn shortened() -> Seq<char> {
    "bčcdfgďhjklmńnprsšťtvžz"@
}

/// The plain consonant of each geminate, in the order of the geminates.
pub fn shortened_text() -> (text: &'static str)
    ensures
        text@ == shortened(),
{
    "bčcdfgďhjklmńnprsšťtvžz"
}

/// The rules of voice assimilation: devoicing before the voiceless
/// obstruents, then voicing before the voiced ones.
pub open spec fn assimilation() -> Seq<RuleModel> {
    rules_at(devoicing(), 0, Some(voiceless())) + rules_at(voicing(), 0, Some(voiced()))
}

/// A spelling with each sound written by one letter.
pub open spec fn single_letters(s: Seq<char>) -> Option<Seq<char>> {
    rewritten(rules_at(digraphs(), 0, None), true, s)
}

/// A text with the combinations of the spelling merged.
pub open spec fn combined(s: Seq<char>) -> Option<Seq<char>> {
    rewritten(rules_at(combinations(), 0, None), true, s)
}

/// A text after each obstruent has taken the voice of the obstruent after
/// it, all at once.
pub open spec fn assimilated(s: Seq<char>) -> Option<Seq<char>> {
    rewritten(assimilation(), true, s)
}

/// A text with equal neighbours merged, if every letter of it can be read.
pub open spec fn merged(s: Seq<char>) -> Option<Seq<char>> {
    rewritten(rules_at(merging(), 0, None), false, s)
}

/// A text after `n` rounds of voice assimilation.
pub open spec fn after_rounds(s: Seq<char>, n: nat) -> Option<Seq<char>>
    decreases n,
{
    if n == 0 {
        Some(s)
    } else {
        match after_rounds(s, (n - 1) as nat) {
            Some(t) => assimilated(t),
            None => None,
        }
    }
}

/// Whether `n` rounds of voice assimilation bring a text to rest: one more
/// round changes nothing.
pub open spec fn settles_in(s: Seq<char>, n: nat) -> bool {
    after_rounds(s, n) is Some && assimilated(after_rounds(s, n).unwrap()) == after_rounds(s, n)
}

/// Whether voice assimilation brings a text to rest.
pub open spec fn settles(s: Seq<char>) -> bool {
    exists|n: nat| settles_in(s, n)
}

/// A text after voice assimilation has come to rest.
pub open spec fn settled(s: Seq<char>) -> Seq<char> {
    after_rounds(s, choose|n: nat| settles_in(s, n)).unwrap()
}

/// The first place of `c` in `class` from `from` on.
pub open spec fn place_of(class: Seq<char>, c: char, from: int) -> Option<int>
    decreases class.len() - from,
{
    if from < 0 || from >= class.len() {
        None
    } else if class[from] == c {
        Some(from)
    } else {
        place_of(class, c, from + 1)
    }
}

/// Whether `c` is a consonant, plain or geminate.
pub open spec fn is_consonant(c: char) -> bool {
    place_of(geminates(), c, 0) is Some || place_of(plain_consonants(), c, 0) is Some
}

/// What follows a grapheme, if anything follows.
pub open spec fn then(first: Seq<char>, rest: Option<Seq<Seq<char>>>) -> Option<Seq<Seq<char>>> {
    match rest {
        Some(rest) => Some(seq![first] + rest),
        None => None,
    }
}

/// The graphemes of a text from `p` on, with geminates next to a consonant
/// written plain. `cons` tells whether a consonant stands before `p`. A
/// vowel and a plain consonant stay; a geminate is written plain before a
/// consonant and after one; a letter that is none of these cannot be read.
pub open spec fn simplified_from(s: Seq<char>, p: int, cons: bool) -> Option<Seq<Seq<char>>>
    decreases s.len() - p,
{
    if p < 0 || p >= s.len() {
        Some(Seq::empty())
    } else if place_of(vowels(), s[p], 0) is Some {
        then(seq![s[p]], simplified_from(s, p + 1, false))
    } else {
        match place_of(geminates(), s[p], 0) {
            Some(k) => {
                let short = cons || (p + 1 < s.len() && is_consonant(s[p + 1]));
                then(
                    seq![if short && 0 <= k < shortened().len() {
                        shortened()[k]
                    } else {
                        s[p]
                    }],
                    simplified_from(s, p + 1, true),
                )
            },
            None => if place_of(plain_consonants(), s[p], 0) is Some {
                then(seq![s[p]], simplified_from(s, p + 1, true))
            } else {
                None
            },
        }
    }
}

/// The graphemes of a text, with geminates next to a consonant written
/// plain. An empty text has none.
pub open spec fn simplified(s: Seq<char>, cons: bool) -> Option<Seq<Seq<char>>> {
    if s.len() == 0 {
        None
    } else {
        simplified_from(s, 0, cons)
    }
}

/// What is said of an empty text.
pub open spec fn empty_text() -> Seq<char> {
    "simple_grapheme: the text is empty"@
}

/// The graphemes of a word, or what is said of an empty word: the spelling
/// in single letters, with its combinations merged, after voice
/// assimilation has come to rest, with equal neighbours merged and geminates
/// next to a consonant written plain.
pub open spec fn converted(s: Seq<char>) -> Result<Seq<Seq<char>>, Seq<char>> {
    match single_letters(s) {
        Some(graphemic) => Ok(
            simplified(merged(settled(combined(graphemic).unwrap())).unwrap(), false).unwrap(),
        ),
        None => Err(empty_text()),
    }
}

/// Whether a word can be converted: its spelling in single letters can be
/// merged, voice assimilation brings it to rest, and every letter that is
/// left can be read.
pub open spec fn convertible(s: Seq<char>) -> bool {
    match single_letters(s) {
        Some(graphemic) => {
            &&& combined(graphemic) is Some
            &&& settles(combined(graphemic).unwrap())
            &&& merged(settled(combined(graphemic).unwrap())) is Some
            &&& simplified(merged(settled(combined(graphemic).unwrap())).unwrap(), false) is Some
        },
        None => true,
    }
}

/// Whether voice assimilation brings a text to rest in `rounds` rounds at
/// most.
pub open spec fn settles_within(s: Seq<char>, rounds: usize) -> bool {
    exists|n: nat| n <= rounds && settles_in(s, n)
}

/// Whether a word can be converted with `rounds` rounds of voice
/// assimilation at most: see [`convertible`].
pub open spec fn convertible_within(s: Seq<char>, rounds: usize) -> bool {
    match single_letters(s) {
        Some(graphemic) => {
            &&& combined(graphemic) is Some
            &&& settles_within(combined(graphemic).unwrap(), rounds)
            &&& merged(settled(combined(graphemic).unwrap())) is Some
            &&& simplified(merged(settled(combined(graphemic).unwrap())).unwrap(), false) is Some
        },
        None => true,
    }
}

/// A word that can be converted with so many rounds can be converted.
pub proof fn lemma_convertible_within(s: Seq<char>, rounds: usize)
    requires
        convertible_within(s, rounds),
    ensures
        convertible(s),
{
    match single_letters(s) {
        Some(graphemic) => {
            let n = choose|n: nat| n <= rounds && settles_in(combined(graphemic).unwrap(), n);
            assert(settles_in(combined(graphemic).unwrap(), n));
        },
        None => {},
    }
}

/// Two rests of one text are the same.
pub proof fn lemma_one_rest(s: Seq<char>, n: nat, m: nat)
    requires
        settles_in(s, n),
        settles_in(s, m),
    ensures
        after_rounds(s, n) == after_rounds(s, m),
{
    if n <= m {
        lemma_rest_stays(s, n, m);
    } else {
        lemma_rest_stays(s, m, n);
    }
}

/// Once at rest, a text stays as it is.
pub proof fn lemma_rest_stays(s: Seq<char>, n: nat, m: nat)
    requires
        settles_in(s, n),
        n <= m,
    ensures
        after_rounds(s, m) == after_rounds(s, n),
    decreases m - n,
{
    if n < m {
        lemma_rest_stays(s, n, (m - 1) as nat);
    }
}

/// The place of a character in a class is a place of the class that holds
/// the character.
pub proof fn lemma_place_of(class: Seq<char>, c: char, from: int)
    requires
        0 <= from,
    ensures
        match place_of(class, c, from) {
            Some(k) => from <= k < class.len() && class[k] == c,
            None => true,
        },
    decreases class.len() - from,
{
    if from < class.len() && class[from] != c {
        lemma_place_of(class, c, from + 1);
    }
}

/// Each letter that can be read gives one grapheme.
pub proof fn lemma_simplified_len(s: Seq<char>, p: int, cons: bool)
    requires
        0 <= p <= s.len(),
        simplified_from(s, p, cons) is Some,
    ensures
        simplified_from(s, p, cons).unwrap().len() == s.len() - p,
    decreases s.len() - p,
{
    if p < s.len() {
        if place_of(vowels(), s[p], 0) is Some {
            lemma_simplified_len(s, p + 1, false);
        } else {
            lemma_simplified_len(s, p + 1, true);
        }
    }
}

/// Writes each sound of a spelling with one letter: see [`single_letters`].
pub fn simple_grapheme(input: &str) -> (out: Option<String>)
    ensures
        match out {
            Some(text) => single_letters(input@) == Some(text@),
            None => single_letters(input@) is None,
        },
{
    let rules = rules_of(digraphs_text(), None);
    rewrite(&rules, true, input)
}

/// Merges the combinations of a spelling: see [`combined`].
pub fn orthographic_combinations(input: &str) -> (out: Option<String>)
    ensures
        match out {
            Some(text) => combined(input@) == Some(text@),
            None => combined(input@) is None,
        },
{
    let rules = rules_of(combinations_text(), None);
    rewrite(&rules, true, input)
}

/// One round of voice assimilation: see [`assimilated`].
pub fn obstruent_voice(input: &str) -> (out: Option<String>)
    ensures
        match out {
            Some(text) => assimilated(input@) == Some(text@),
            None => assimilated(input@) is None,
        },
{
    let mut rules = rules_of(devoicing_text(), Some(voiceless_text()));
    let mut more = rules_of(voicing_text(), Some(voiced_text()));
    let ghost first = rules_view(rules@);
    let ghost second = rules_view(more@);
    rules.append(&mut more);
    assert(rules_view(rules@) =~= first + second);
    rewrite(&rules, true, input)
}

/// Merges equal neighbours: see [`merged`].
pub fn combine_identical(input: &str) -> (out: Option<String>)
    ensures
        match out {
            Some(text) => merged(input@) == Some(text@),
            None => merged(input@) is None,
        },
{
    let rules = rules_of(merging_text(), None);
    rewrite(&rules, false, input)
}

/// The first place of `c` in `class`.
fn find(class: &Vec<char>, c: char) -> (found: Option<usize>)
    ensures
        match found {
            Some(k) => place_of(class@, c, 0) == Some(k as int) && k < class.len(),
            None => place_of(class@, c, 0) is None,
        },
{
    let mut k: usize = 0;
    while k < class.len()
        invariant
            k <= class.len(),
            place_of(class@, c, 0) == place_of(class@, c, k as int),
        decreases class.len() - k,
    {
        if class[k] == c {
            return Some(k);
        }
        k += 1;
    }
    None
}

/// The graphemes of a list as mathematical values.
pub open spec fn graphemes_view(list: Seq<String>) -> Seq<Seq<char>> {
    Seq::new(list.len(), |i: int| list[i]@)
}

/// Splits a text into its graphemes and writes geminates next to a
/// consonant plain: see [`simplified`].
pub fn simplify_geminates(input: &str, cons: bool) -> (out: Option<Vec<String>>)
    ensures
        match out {
            Some(list) => simplified(input@, cons) == Some(graphemes_view(list@)),
            None => simplified(input@, cons) is None,
        },
{
    let s = chars_of(input);
    if s.len() == 0 {
        return None;
    }
    let vowel_class = chars_of(vowels_text());
    let plain_class = chars_of(plain_consonants_text());
    let geminate_class = chars_of(geminates_text());
    let short_text = shortened_text();
    let short_class = chars_of(short_text);
    let mut out: Vec<String> = Vec::new();
    let mut cons = cons;
    let ghost start = cons;
    let mut p: usize = 0;
    proof {
        assert(graphemes_view(out@) =~= Seq::empty());
        match simplified_from(s@, 0, start) {
            Some(all) => {
                assert(Seq::<Seq<char>>::empty() + all =~= all);
            },
            None => {},
        }
    }
    while p < s.len()
        invariant
            p <= s.len(),
            s@ == input@,
            vowel_class@ == vowels(),
            plain_class@ == plain_consonants(),
            geminate_class@ == geminates(),
            short_class@ == shortened(),
            short_text@ == shortened(),
            simplified_from(s@, 0, start) == match simplified_from(s@, p as int, cons) {
                Some(rest) => Some(graphemes_view(out@) + rest),
                None => None::<Seq<Seq<char>>>,
            },
        decreases s.len() - p,
    {
        let c = s[p];
        let ghost written = graphemes_view(out@);
        let ghost here = simplified_from(s@, p as int, cons);
        let grapheme: String;
        let ghost next: Option<Seq<Seq<char>>>;
        if find(&vowel_class, c).is_some() {
            grapheme = String::from_str(input.substring_char(p, p + 1));
            cons = false;
        } else {
            match find(&geminate_class, c) {
                Some(k) => {
                    let before_consonant = p + 1 < s.len() && (find(&geminate_class, s[p + 1]).is_some()
                        || find(&plain_class, s[p + 1]).is_some());
                    if (cons || before_consonant) && k < short_class.len() {
                        grapheme = String::from_str(short_text.substring_char(k, k + 1));
                        proof {
                            assert(short_text@.subrange(k as int, k + 1) =~= seq![shortened()[k as int]]);
                        }
                    } else {
                        grapheme = String::from_str(input.substring_char(p, p + 1));
                    }
                    cons = true;
                },
                None => {
                    if find(&plain_class, c).is_some() {
                        grapheme = String::from_str(input.substring_char(p, p + 1));
                        cons = true;
                    } else {
                        return None;
                    }
                },
            }
        }
        proof {
            assert(input@.subrange(p as int, p + 1) =~= seq![s@[p as int]]);
            next = simplified_from(s@, p + 1, cons);
            assert(here == then(grapheme@, next));
        }
        out.push(grapheme);
        proof {
            assert(graphemes_view(out@) =~= written + seq![grapheme@]);
            match next {
                Some(rest) => {
                    assert(written + (seq![grapheme@] + rest) =~= graphemes_view(out@) + rest);
                },
                None => {},
            }
        }
        p += 1;
    }
    proof {
        assert(graphemes_view(out@) + Seq::<Seq<char>>::empty() =~= graphemes_view(out@));
    }
    Some(out)
}

/// The graphemes of a word: see [`converted`]. An empty word is complained
/// of.
pub fn convert_graphemes(s: &'static str) -> (result: Result<Vec<String>, String>)
    requires
        convertible(s@),
    ensures
        match result {
            Ok(list) => converted(s@) == Ok::<Seq<Seq<char>>, Seq<char>>(graphemes_view(list@)),
            Err(e) => converted(s@) == Err::<Seq<Seq<char>>, Seq<char>>(e@),
        },
{
    match simple_grapheme(s) {
        Some(graphemic) => {
            let mut combined = orthographic_combinations(graphemic.as_str()).unwrap();
            let ghost start = combined@;
            let ghost rounds = choose|n: nat| settles_in(start, n);
            let ghost mut done: nat = 0;
            let mut modified = true;
            while modified
                invariant
                    settles_in(start, rounds),
                    done <= rounds,
                    after_rounds(start, done) == Some(combined@),
                    !modified ==> settles_in(start, done),
                decreases rounds - done + if modified { 1int } else { 0int },
            {
                proof {
                    assert(after_rounds(start, done + 1) == assimilated(combined@));
                    if done < rounds {
                        lemma_rounds_defined(start, done + 1, rounds);
                    }
                }
                let new_assimilated = obstruent_voice(combined.as_str()).unwrap();
                if new_assimilated == combined {
                    modified = false;
                } else {
                    proof {
                        if done == rounds {
                            assert(false);
                        }
                        done = done + 1;
                    }
                    combined = new_assimilated;
                }
            }
            proof {
                lemma_rest_stays(start, done, rounds);
                assert(combined@ == settled(start));
            }
            let merged = combine_identical(combined.as_str()).unwrap();
            Ok(simplify_geminates(merged.as_str(), false).unwrap())
        },
        None => Err(String::from_str("simple_grapheme: the text is empty")),
    }
}

/// The graphemes of a word as [`convert_graphemes`] gives them, if the word
/// can be converted with `rounds` rounds of voice assimilation at most, and
/// nothing if not: for a word of which it is not known whether it can be
/// converted.
pub fn convert_graphemes_within(s: &'static str, rounds: usize) -> (result: Option<
    Result<Vec<String>, String>,
>)
    ensures
        result is Some <==> convertible_within(s@, rounds),
        match result {
            Some(Ok(list)) => converted(s@) == Ok::<Seq<Seq<char>>, Seq<char>>(
                graphemes_view(list@),
            ),
            Some(Err(e)) => converted(s@) == Err::<Seq<Seq<char>>, Seq<char>>(e@),
            None => true,
        },
{
    let graphemic = match simple_grapheme(s) {
        Some(graphemic) => graphemic,
        None => {
            return Some(Err(String::from_str("simple_grapheme: the text is empty")));
        },
    };
    let mut text = match orthographic_combinations(graphemic.as_str()) {
        Some(text) => text,
        None => {
            return None;
        },
    };
    let ghost start = text@;
    let mut done: usize = 0;
    let mut modified = true;
    while modified
        invariant
            done <= rounds,
            single_letters(s@) == Some(graphemic@),
            combined(graphemic@) == Some(start),
            after_rounds(start, done as nat) == Some(text@),
            forall|n: nat| n < done ==> !settles_in(start, n),
            !modified ==> settles_in(start, done as nat),
        decreases rounds - done + if modified { 1int } else { 0int },
    {
        proof {
            assert(after_rounds(start, (done + 1) as nat) == assimilated(text@));
        }
        let new_assimilated = match obstruent_voice(text.as_str()) {
            Some(new_assimilated) => new_assimilated,
            None => {
                proof {
                    assert forall|n: nat| n <= rounds implies !settles_in(start, n) by {
                        if n > done && after_rounds(start, n) is Some {
                            lemma_rounds_defined(start, (done + 1) as nat, n);
                        }
                    }
                }
                return None;
            },
        };
        if new_assimilated == text {
            modified = false;
        } else {
            if done == rounds {
                proof {
                    assert forall|n: nat| n <= rounds implies !settles_in(start, n) by {
                        if n == done {
                            assert(assimilated(text@) != Some(text@));
                        }
                    }
                }
                return None;
            }
            text = new_assimilated;
            done += 1;
        }
    }
    proof {
        let n = choose|n: nat| settles_in(start, n);
        lemma_one_rest(start, done as nat, n);
        assert(text@ == settled(start));
    }
    let merged = match combine_identical(text.as_str()) {
        Some(merged) => merged,
        None => {
            return None;
        },
    };
    match simplify_geminates(merged.as_str(), false) {
        Some(list) => Some(Ok(list)),
        None => None,
    }
}

/// What `m` rounds reach, fewer rounds reach too.
pub proof fn lemma_rounds_defined(s: Seq<char>, n: nat, m: nat)
    requires
        n <= m,
        after_rounds(s, m) is Some,
    ensures
        after_rounds(s, n) is Some,
    decreases m - n,
{
    if n < m {
        lemma_rounds_defined(s, n, (m - 1) as nat);
    }
}

} // verus!
