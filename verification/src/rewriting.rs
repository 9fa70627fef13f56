use crate::notation::chars_of;
use crate::notation::lemma_run_bounds;
use crate::notation::run_of;
use vstd::prelude::*;
use vstd::string::StrSliceExecFns;
use vstd::string::StringExecFns;

verus! {

/// A rule of rewriting: where the pattern stands in a text, and the character
/// after it is one of `ahead` if that is given, the replacement is written
/// for the pattern.
pub struct RuleModel {
    pub pattern: Seq<char>,
    pub ahead: Option<Seq<char>>,
    pub replacement: Seq<char>,
}

/// What a pattern or a replacement is made of in the notation of rules:
/// anything but a blank and the sign between pattern and replacement.
pub open spec fn is_rule_char(c: char) -> bool {
    c != ' ' && c != '>'
}

/// The rules that a text writes from `p` on: one rule after the other with a
/// blank between them, each a pattern, `>` and a replacement. All take the
/// same `ahead`.
pub open spec fn rules_at(t: Seq<char>, p: int, ahead: Option<Seq<char>>) -> Seq<RuleModel>
    decreases t.len() - p,
{
    if p < 0 || p >= t.len() {
        Seq::empty()
    } else {
        let a = run_of(t, p, |c: char| is_rule_char(c));
        if 0 <= a < t.len() && t[a] == '>' {
            let b = run_of(t, a + 1, |c: char| is_rule_char(c));
            proof {
                lemma_run_bounds(t, p, |c: char| is_rule_char(c));
                lemma_run_bounds(t, a + 1, |c: char| is_rule_char(c));
            }
            seq![
                RuleModel {
                    pattern: t.subrange(p, a),
                    ahead: ahead,
                    replacement: t.subrange(a + 1, b),
                },
            ] + if b < t.len() {
                rules_at(t, b + 1, ahead)
            } else {
                Seq::empty()
            }
        } else {
            Seq::empty()
        }
    }
}

/// Whether a rule applies at `p`.
pub open spec fn applies(rule: RuleModel, s: Seq<char>, p: int) -> bool {
    &&& rule.pattern.len() > 0
    &&& 0 <= p
    &&& p + rule.pattern.len() <= s.len()
    &&& s.subrange(p, p + rule.pattern.len()) == rule.pattern
    &&& match rule.ahead {
        Some(class) => p + rule.pattern.len() < s.len() && class.contains(
            s[p + rule.pattern.len()],
        ),
        None => true,
    }
}

/// The first rule from `from` on that applies at `p`.
pub open spec fn first_rule(rules: Seq<RuleModel>, s: Seq<char>, p: int, from: int) -> Option<int>
    decreases rules.len() - from,
{
    if from < 0 || from >= rules.len() {
        None
    } else if applies(rules[from], s, p) {
        Some(from)
    } else {
        first_rule(rules, s, p, from + 1)
    }
}

/// What follows a piece of text, if anything follows.
pub open spec fn after(head: Seq<char>, rest: Option<Seq<char>>) -> Option<Seq<char>> {
    match rest {
        Some(rest) => Some(head + rest),
        None => None,
    }
}

/// The text from `p` on, rewritten: at each place the first rule that
/// applies decides; where none applies, the character stays if `any`, and
/// the text cannot be rewritten if not.
pub open spec fn rewritten_from(rules: Seq<RuleModel>, any: bool, s: Seq<char>, p: int) -> Option<
    Seq<char>,
>
    decreases s.len() - p,
{
    if p < 0 || p >= s.len() {
        Some(Seq::empty())
    } else {
        proof {
            lemma_first_rule(rules, s, p, 0);
        }
        match first_rule(rules, s, p, 0) {
            Some(k) => after(
                rules[k].replacement,
                rewritten_from(rules, any, s, p + rules[k].pattern.len()),
            ),
            None => if any {
                after(seq![s[p]], rewritten_from(rules, any, s, p + 1))
            } else {
                None
            },
        }
    }
}

/// A text rewritten from its start to its end. An empty text cannot be
/// rewritten.
pub open spec fn rewritten(rules: Seq<RuleModel>, any: bool, s: Seq<char>) -> Option<Seq<char>> {
    if s.len() == 0 {
        None
    } else {
        rewritten_from(rules, any, s, 0)
    }
}

/// The first rule that applies is one of the rules, applies, and no rule
/// before it does.
pub proof fn lemma_first_rule(rules: Seq<RuleModel>, s: Seq<char>, p: int, from: int)
    requires
        0 <= from,
    ensures
        match first_rule(rules, s, p, from) {
            Some(k) => from <= k < rules.len() && applies(rules[k], s, p),
            None => true,
        },
    decreases rules.len() - from,
{
    if from < rules.len() && !applies(rules[from], s, p) {
        lemma_first_rule(rules, s, p, from + 1);
    }
}

/// A rule of rewriting.
pub struct Rule<'t> {
    pub pattern: Vec<char>,
    pub ahead: Option<Vec<char>>,
    pub replacement: &'t str,
}

impl<'t> Rule<'t> {
    /// The rule as a mathematical value.
    pub open spec fn view(&self) -> RuleModel {
        RuleModel {
            pattern: self.pattern@,
            ahead: match self.ahead {
                Some(class) => Some(class@),
                None => None,
            },
            replacement: self.replacement@,
        }
    }

    /// Whether the rule applies at `p` of `s`.
    pub fn applies_at(&self, s: &Vec<char>, p: usize) -> (b: bool)
        requires
            p <= s.len(),
        ensures
            b == applies(self@, s@, p as int),
    {
        let n = self.pattern.len();
        if n == 0 || n > s.len() - p {
            return false;
        }
        let mut i: usize = 0;
        while i < n
            invariant
                i <= n,
                n == self.pattern.len(),
                p + n <= s.len(),
                forall|k: int| 0 <= k < i ==> s@[p + k] == self.pattern@[k],
            decreases n - i,
        {
            if s[p + i] != self.pattern[i] {
                assert(s@.subrange(p as int, p + n)[i as int] != self.pattern@[i as int]);
                return false;
            }
            i += 1;
        }
        assert(s@.subrange(p as int, p + n) =~= self.pattern@);
        match &self.ahead {
            Some(class) => {
                if p + n >= s.len() {
                    return false;
                }
                let next = s[p + n];
                let mut j: usize = 0;
                while j < class.len()
                    invariant
                        j <= class.len(),
                        n == self.pattern.len(),
                        n > 0,
                        p + n < s.len(),
                        s@.subrange(p as int, p + n) == self.pattern@,
                        next == s@[p + n],
                        self@.ahead == Some(class@),
                        forall|k: int| 0 <= k < j ==> class@[k] != next,
                    decreases class.len() - j,
                {
                    if class[j] == next {
                        assert(class@[j as int] == next);
                        return true;
                    }
                    j += 1;
                }
                false
            },
            None => true,
        }
    }
}

/// The rules of a list as mathematical values.
pub open spec fn rules_view(rules: Seq<Rule>) -> Seq<RuleModel> {
    Seq::new(rules.len(), |i: int| rules[i]@)
}

/// The place after the characters of a pattern or a replacement at `p`.
fn rule_part(t: &Vec<char>, p: usize) -> (q: usize)
    requires
        p <= t.len(),
    ensures
        q == run_of(t@, p as int, |c: char| is_rule_char(c)),
        p <= q <= t.len(),
{
    let mut q = p;
    while q < t.len() && t[q] != ' ' && t[q] != '>'
        invariant
            p <= q <= t.len(),
            run_of(t@, q as int, |c: char| is_rule_char(c)) == run_of(
                t@,
                p as int,
                |c: char| is_rule_char(c),
            ),
        decreases t.len() - q,
    {
        q += 1;
    }
    q
}

/// A copy of a list of characters.
fn copy_chars(v: &Vec<char>, from: usize, to: usize) -> (out: Vec<char>)
    requires
        from <= to <= v.len(),
    ensures
        out@ == v@.subrange(from as int, to as int),
{
    let mut out: Vec<char> = Vec::new();
    let mut i: usize = from;
    while i < to
        invariant
            from <= i <= to <= v.len(),
            out@ == v@.subrange(from as int, i as int),
        decreases to - i,
    {
        out.push(v[i]);
        assert(out@ =~= v@.subrange(from as int, i + 1));
        i += 1;
    }
    assert(out@ =~= v@.subrange(from as int, to as int));
    out
}

/// The rules that a text writes, all with the same `ahead`: see
/// [`rules_at`].
pub fn rules_of<'t>(text: &'t str, ahead: Option<&str>) -> (rules: Vec<Rule<'t>>)
    ensures
        rules_view(rules@) == rules_at(
            text@,
            0,
            match ahead {
                Some(class) => Some(class@),
                None => None,
            },
        ),
{
    let t = chars_of(text);
    let class: Option<Vec<char>> = match ahead {
        Some(class) => Some(chars_of(class)),
        None => None,
    };
    let ghost look: Option<Seq<char>> = match ahead {
        Some(class) => Some(class@),
        None => None,
    };
    let mut rules: Vec<Rule<'t>> = Vec::new();
    let mut p: usize = 0;
    proof {
        assert(rules_view(rules@) =~= Seq::empty());
        assert(rules_view(rules@) + rules_at(text@, 0, look) =~= rules_at(text@, 0, look));
    }
    while p < t.len()
        invariant
            t@ == text@,
            look == match class {
                Some(class) => Some(class@),
                None => None::<Seq<char>>,
            },
            rules_view(rules@) + rules_at(text@, p as int, look) == rules_at(text@, 0, look),
        decreases t.len() - p,
    {
        let a = rule_part(&t, p);
        if a < t.len() && t[a] == '>' {
            let b = rule_part(&t, a + 1);
            let ghost before = rules_view(rules@);
            let rule = Rule {
                pattern: copy_chars(&t, p, a),
                ahead: match &class {
                    Some(class) => Some(copy_chars(class, 0, class.len())),
                    None => None,
                },
                replacement: text.substring_char(a + 1, b),
            };
            proof {
                if class is Some {
                    let all = class->0@;
                    assert(all.subrange(0, all.len() as int) =~= all);
                }
                assert(rules_at(text@, p as int, look) == seq![rule@] + if b < t.len() {
                    rules_at(text@, b + 1, look)
                } else {
                    Seq::empty()
                });
            }
            rules.push(rule);
            let ghost tail = if b < t.len() {
                rules_at(text@, b + 1, look)
            } else {
                Seq::empty()
            };
            proof {
                assert(rules_view(rules@) =~= before + seq![rule@]);
                assert(rules_view(rules@) + tail =~= before + (seq![rule@] + tail));
            }
            if b == t.len() {
                p = b;
            } else {
                p = b + 1;
            }
        } else {
            proof {
                assert(rules_at(text@, p as int, look) =~= Seq::empty());
                assert(rules_at(text@, t.len() as int, look) =~= Seq::empty());
            }
            p = t.len();
        }
    }
    proof {
        assert(rules_at(text@, p as int, look) =~= Seq::empty());
        assert(rules_view(rules@) + Seq::<RuleModel>::empty() =~= rules_view(rules@));
    }
    rules
}

/// Rewrites a text by rules: see [`rewritten`].
pub fn rewrite(rules: &Vec<Rule>, any: bool, input: &str) -> (out: Option<String>)
    ensures
        match out {
            Some(text) => rewritten(rules_view(rules@), any, input@) == Some(text@),
            None => rewritten(rules_view(rules@), any, input@) is None,
        },
{
    let s = chars_of(input);
    if s.len() == 0 {
        return None;
    }
    let ghost model = rules_view(rules@);
    let mut out = String::new();
    let mut p: usize = 0;
    proof {
        assert(Seq::<char>::empty() + rewritten_from(model, any, s@, 0).unwrap_or(Seq::empty())
            =~= rewritten_from(model, any, s@, 0).unwrap_or(Seq::empty()));
    }
    while p < s.len()
        invariant
            p <= s.len(),
            s@ == input@,
            model == rules_view(rules@),
            rewritten_from(model, any, s@, 0) == after(out@, rewritten_from(model, any, s@, p as int)),
        decreases s.len() - p,
    {
        let ghost rest = rewritten_from(model, any, s@, p as int);
        let ghost written = out@;
        let mut k: usize = 0;
        let mut found = false;
        while k < rules.len() && !found
            invariant
                k <= rules.len(),
                p < s.len(),
                model == rules_view(rules@),
                first_rule(model, s@, p as int, 0) == if found {
                    Some(k as int)
                } else {
                    first_rule(model, s@, p as int, k as int)
                },
                found ==> k < rules.len() && applies(model[k as int], s@, p as int),
            decreases rules.len() - k + if found { 0int } else { 1int },
        {
            assert(model[k as int] == rules@[k as int]@);
            if rules[k].applies_at(&s, p) {
                found = true;
            } else {
                k += 1;
            }
        }
        if found {
            let rule = &rules[k];
            assert(model[k as int] == rule@);
            out.append(rule.replacement);
            proof {
                let next = rewritten_from(model, any, s@, p + rule.pattern@.len());
                assert(rest == after(rule@.replacement, next));
                match next {
                    Some(tail) => {
                        assert(written + (rule@.replacement + tail) =~= out@ + tail);
                    },
                    None => {},
                }
            }
            p = p + rule.pattern.len();
        } else if any {
            out.append(input.substring_char(p, p + 1));
            proof {
                let next = rewritten_from(model, any, s@, p + 1);
                assert(input@.subrange(p as int, p + 1) =~= seq![s@[p as int]]);
                assert(rest == after(seq![s@[p as int]], next));
                match next {
                    Some(tail) => {
                        assert(written + (seq![s@[p as int]] + tail) =~= out@ + tail);
                    },
                    None => {},
                }
            }
            p = p + 1;
        } else {
            return None;
        }
    }
    proof {
        assert(out@ + Seq::<char>::empty() =~= out@);
    }
    Some(out)
}

} // verus!
