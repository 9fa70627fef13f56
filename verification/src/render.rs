use crate::label::Label;
use crate::language::lemma_run_push;
use crate::machine::FSA;
use crate::traversal::edge_list;
use crate::traversal::edges_from;
use crate::traversal::lemma_edge_list;
use crate::traversal::lemma_walk_decreases;
use crate::traversal::line_of;
use crate::traversal::rooted;
use crate::traversal::stale;
use crate::traversal::traversal;
use crate::traversal::unprinted_targets;
use crate::traversal::walk_from;
use crate::traversal::LineModel;
use crate::walk::edges_of;
use std::collections::HashSet;
use vstd::prelude::*;
use vstd::string::to_string_from_display_ensures;
use vstd::string::StringExecFns;

verus! {

/// One line of the dump of an automaton.
pub struct Line<L: Label> {
    pub node: u32,
    pub accepting: bool,
    pub looping: bool,
    pub edges: Vec<(L, u32)>,
}

impl<L: Label> Line<L> {
    /// The line as a mathematical value.
    pub open spec fn view(&self) -> LineModel<L> {
        LineModel {
            node: self.node,
            accepting: self.accepting,
            looping: self.looping,
            edges: self.edges@,
        }
    }
}

/// The character of a decimal digit.
pub open spec fn digit(d: nat) -> char {
    if d == 0 {
        '0'
    } else if d == 1 {
        '1'
    } else if d == 2 {
        '2'
    } else if d == 3 {
        '3'
    } else if d == 4 {
        '4'
    } else if d == 5 {
        '5'
    } else if d == 6 {
        '6'
    } else if d == 7 {
        '7'
    } else if d == 8 {
        '8'
    } else {
        '9'
    }
}

/// A number in decimal digits, without leading zeros.
pub open spec fn decimal(n: nat) -> Seq<char>
    decreases n,
{
    if n < 10 {
        seq![digit(n)]
    } else {
        decimal(n / 10).push(digit(n % 10))
    }
}

/// The text of one edge in a line: a blank, the label as its type displays
/// it, an arrow between blanks, and the target in decimal digits.
pub open spec fn edge_text(name: Seq<char>, target: u32) -> Seq<char> {
    seq![' '] + name + seq![' ', '-', '>', ' '] + decimal(target as nat)
}

/// The text of the edges of a line, whose labels display as `names`.
pub open spec fn edges_text<L>(edges: Seq<(L, u32)>, names: Seq<String>) -> Seq<char>
    decreases edges.len(),
{
    if edges.len() == 0 || names.len() != edges.len() {
        Seq::empty()
    } else {
        edges_text(edges.drop_last(), names.drop_last()) + edge_text(names.last()@, edges.last().1)
    }
}

/// The text of a line: the state in decimal digits, a dot if it accepts, a
/// dollar sign if it loops, its edges, and a line feed.
pub open spec fn line_text<L>(line: LineModel<L>, names: Seq<String>) -> Seq<char> {
    decimal(line.node as nat) + (if line.accepting {
        seq!['.']
    } else {
        Seq::empty()
    }) + (if line.looping {
        seq!['$']
    } else {
        Seq::empty()
    }) + edges_text(line.edges, names) + seq!['\n']
}

/// The text of a list of lines, one after the other.
pub open spec fn text_of<L>(lines: Seq<LineModel<L>>, names: Seq<Seq<String>>) -> Seq<char>
    decreases lines.len(),
{
    if lines.len() == 0 || names.len() != lines.len() {
        Seq::empty()
    } else {
        text_of(lines.drop_last(), names.drop_last()) + line_text(lines.last(), names.last())
    }
}

/// Whether `names` holds, for each edge of each line, a text that the type
/// of the labels displays the label of the edge as.
pub open spec fn named_by<L: Label>(lines: Seq<LineModel<L>>, names: Seq<Seq<String>>) -> bool {
    &&& names.len() == lines.len()
    &&& forall|i: int| 0 <= i < lines.len() ==> (#[trigger] names[i]).len() == lines[i].edges.len()
    &&& forall|i: int, j: int|
        0 <= i < lines.len() && 0 <= j < lines[i].edges.len() ==> to_string_from_display_ensures::<
            L,
        >(&lines[i].edges[j].0, #[trigger] names[i][j])
}

/// The text of a decimal digit.
fn digit_text(d: u32) -> (s: &'static str)
    requires
        d < 10,
    ensures
        s@ == seq![digit(d as nat)],
{
    proof {
        reveal_strlit("0");
        reveal_strlit("1");
        reveal_strlit("2");
        reveal_strlit("3");
        reveal_strlit("4");
        reveal_strlit("5");
        reveal_strlit("6");
        reveal_strlit("7");
        reveal_strlit("8");
        reveal_strlit("9");
    }
    let s = if d == 0 {
        "0"
    } else if d == 1 {
        "1"
    } else if d == 2 {
        "2"
    } else if d == 3 {
        "3"
    } else if d == 4 {
        "4"
    } else if d == 5 {
        "5"
    } else if d == 6 {
        "6"
    } else if d == 7 {
        "7"
    } else if d == 8 {
        "8"
    } else {
        "9"
    };
    assert(s@ =~= seq![digit(d as nat)]);
    s
}

/// A number as text, in decimal digits without leading zeros.
pub fn decimal_text(n: u32) -> (s: String)
    ensures
        s@ == decimal(n as nat),
    decreases n,
{
    if n < 10 {
        String::from_str(digit_text(n))
    } else {
        let mut s = decimal_text(n / 10);
        s.append(digit_text(n % 10));
        assert(s@ =~= decimal(n as nat));
        s
    }
}

/// The text of a list of lines; each label is displayed as its type displays
/// it.
pub fn render_lines<L: Label>(lines: &Vec<Line<L>>) -> (text: String)
    ensures
        exists|names: Seq<Seq<String>>|
            named_by(lines_view(lines@), names) && text@ == #[trigger] text_of(
                lines_view(lines@),
                names,
            ),
{
    let ghost all = lines_view(lines@);
    let mut text = String::new();
    let ghost mut names: Seq<Seq<String>> = Seq::empty();
    let mut i: usize = 0;
    proof {
        reveal_strlit(".");
        reveal_strlit("$");
        reveal_strlit(" ");
        reveal_strlit(" -> ");
        reveal_strlit("\n");
        assert(all.subrange(0, 0) =~= Seq::empty());
    }
    while i < lines.len()
        invariant
            i <= lines.len(),
            all == lines_view(lines@),
            "."@ == seq!['.'],
            "$"@ == seq!['$'],
            " "@ == seq![' '],
            " -> "@ == seq![' ', '-', '>', ' '],
            "\n"@ == seq!['\n'],
            named_by(all.subrange(0, i as int), names),
            text@ == text_of(all.subrange(0, i as int), names),
        decreases lines.len() - i,
    {
        let line = &lines[i];
        let ghost text0 = text@;
        let ghost names0 = names;
        let number = decimal_text(line.node);
        text.append(number.as_str());
        if line.accepting {
            text.append(".");
        }
        if line.looping {
            text.append("$");
        }
        let ghost head = text@;
        let ghost mut row: Seq<String> = Seq::empty();
        let mut j: usize = 0;
        proof {
            assert(line.edges@.subrange(0, 0) =~= Seq::empty());
            assert(head + edges_text(line.edges@.subrange(0, 0), row) =~= head);
        }
        while j < line.edges.len()
            invariant
                j <= line.edges.len(),
                " "@ == seq![' '],
                " -> "@ == seq![' ', '-', '>', ' '],
                row.len() == j,
                forall|k: int|
                    0 <= k < j ==> to_string_from_display_ensures::<L>(
                        &line.edges@[k].0,
                        #[trigger] row[k],
                    ),
                text@ == head + edges_text(line.edges@.subrange(0, j as int), row),
            decreases line.edges.len() - j,
        {
            let ghost before = text@;
            let ghost row0 = row;
            let name = line.edges[j].0.to_string();
            let target = decimal_text(line.edges[j].1);
            text.append(" ");
            text.append(name.as_str());
            text.append(" -> ");
            text.append(target.as_str());
            proof {
                row = row.push(name);
                let part = line.edges@.subrange(0, j + 1);
                assert(part.drop_last() =~= line.edges@.subrange(0, j as int));
                assert(row.drop_last() =~= row0);
                assert(part.last() == line.edges@[j as int]);
                assert(text@ =~= before + edge_text(name@, line.edges@[j as int].1));
                assert(text@ =~= head + edges_text(part, row));
            }
            j += 1;
        }
        text.append("\n");
        proof {
            assert(line.edges@.subrange(0, j as int) =~= line.edges@);
            names = names.push(row);
            let part = all.subrange(0, i + 1);
            assert(part.drop_last() =~= all.subrange(0, i as int));
            assert(names.drop_last() =~= names0);
            assert(part.last() == line@);
            assert(text@ =~= text0 + line_text(line@, row));
            assert forall|a: int, b: int|
                0 <= a < part.len() && 0 <= b < part[a].edges.len() implies to_string_from_display_ensures::<
                L,
            >(&part[a].edges[b].0, #[trigger] names[a][b]) by {
                if a < i {
                    assert(names[a] == names0[a]);
                    assert(part[a] == all.subrange(0, i as int)[a]);
                }
            }
            assert forall|a: int| 0 <= a < part.len() implies (#[trigger] names[a]).len()
                == part[a].edges.len() by {
                if a < i {
                    assert(names[a] == names0[a]);
                    assert(part[a] == all.subrange(0, i as int)[a]);
                }
            }
        }
        i += 1;
    }
    proof {
        assert(all.subrange(0, i as int) =~= all);
    }
    text
}

/// A list of lines as a mathematical value.
pub open spec fn lines_view<L: Label>(lines: Seq<Line<L>>) -> Seq<LineModel<L>> {
    Seq::new(lines.len(), |i: int| lines[i]@)
}

impl<L: Label> FSA<L> {
    /// The lines of the dump of the automaton: see [`traversal`].
    pub fn traversal(&self) -> (lines: Vec<Line<L>>)
        requires
            rooted(self@),
        ensures
            lines_view(lines@) == traversal(self@),
    {
        let ghost m = self@;
        let mut lines: Vec<Line<L>> = Vec::new();
        let mut printed: HashSet<u32> = HashSet::new();
        let mut queue: Vec<u32> = Vec::new();
        queue.push(self.starting);
        let ghost mut words: Seq<Seq<L>> = seq![Seq::<L>::empty()];
        let mut head: usize = 0;
        proof {
            assert(queue@.subrange(0, 1) =~= seq![m.starting]);
            assert(lines_view(lines@) =~= Seq::empty());
            assert(lines_view(lines@) + traversal(m) =~= traversal(m));
        }
        while head < queue.len()
            invariant
                head <= queue.len(),
                m == self@,
                rooted(m),
                m.states.finite(),
                words.len() == queue.len(),
                forall|i: int| 0 <= i < queue.len() ==> m.run(#[trigger] words[i]) == Some(queue@[i]),
                lines_view(lines@) + walk_from(
                    m,
                    queue@.subrange(head as int, queue.len() as int),
                    printed@,
                ) == traversal(m),
            decreases
                    m.states.difference(printed@).len(),
                    stale(queue@.subrange(head as int, queue.len() as int), printed@),
        {
            proof {
                L::lawful();
            }
            let node = queue[head];
            let ghost pending = queue@.subrange(head as int, queue.len() as int);
            let ghost before = printed@;
            let ghost queue0 = queue@;
            let ghost lines0 = lines@;
            proof {
                assert(m.run(words[head as int]) == Some(node));
                assert(m.states.contains(node));
                assert(pending[0] == node);
            }
            let trs = self.transitions.get(&node).unwrap();
            let edges = edges_of(trs);
            proof {
                assert(trs@ =~= edges_from(m, node));
                lemma_edge_list(m, node, edges@);
                assert(edges@.subrange(0, 0) =~= Seq::empty());
                assert(queue@ + unprinted_targets(edges@.subrange(0, 0), printed@) =~= queue@);
            }
            let mut k: usize = 0;
            while k < edges.len()
                invariant
                    k <= edges.len(),
                    head < queue0.len(),
                    queue0[head as int] == node,
                    printed@ == before,
                    queue@ == queue0 + unprinted_targets(edges@.subrange(0, k as int), before),
                    words.len() == queue.len(),
                    forall|i: int|
                        0 <= i < queue.len() ==> m.run(#[trigger] words[i]) == Some(queue@[i]),
                    forall|i: int|
                        0 <= i < edges.len() ==> m.has_edge(node, (#[trigger] edges@[i]).0)
                            && m.target(node, edges@[i].0) == edges@[i].1,
                decreases edges.len() - k,
            {
                let (label, target) = edges[k];
                proof {
                    assert(edges@.subrange(0, k + 1).drop_last() =~= edges@.subrange(0, k as int));
                    assert(edges@.subrange(0, k + 1).last() == edges@[k as int]);
                    assert(m.has_edge(node, edges@[k as int].0));
                }
                if !printed.contains(&target) {
                    queue.push(target);
                    proof {
                        let word = words[head as int];
                        lemma_run_push(m, m.starting, word, label);
                        assert(m.run(word) == Some(node));
                        words = words.push(word.push(label));
                        assert(queue@ =~= queue0 + unprinted_targets(
                            edges@.subrange(0, k + 1),
                            before,
                        ));
                    }
                }
                k += 1;
            }
            let accepting = self.accepting.contains(&node);
            let looping = self.looping.contains(&node);
            proof {
                assert(edges@.subrange(0, k as int) =~= edges@);
            }
            let line = Line { node, accepting, looping, edges };
            lines.push(line);
            printed.insert(node);
            head += 1;
            proof {
                let more = unprinted_targets(edge_list(m, node), before);
                let next = queue@.subrange(head as int, queue.len() as int);
                assert(next =~= pending.drop_first() + more);
                assert(line@ == line_of(m, node));
                assert(lines_view(lines@) =~= lines_view(lines0) + seq![line_of(m, node)]);
                assert(walk_from(m, pending, before) == seq![line_of(m, node)] + walk_from(
                    m,
                    next,
                    before.insert(node),
                ));
                assert(lines_view(lines@) + walk_from(m, next, printed@) =~= lines_view(lines0)
                    + walk_from(m, pending, before));
                lemma_walk_decreases(m, pending, before, edge_list(m, node));
            }
        }
        proof {
            assert(queue@.subrange(head as int, queue.len() as int) =~= Seq::empty());
            assert(lines_view(lines@) + Seq::<LineModel<L>>::empty() =~= lines_view(lines@));
        }
        lines
    }

    /// The dump of the automaton as text, for the eye: one line for each line
    /// of [`traversal`], with each label displayed as its type displays it.
    pub fn render(&self) -> (text: String)
        requires
            rooted(self@),
        ensures
            exists|names: Seq<Seq<String>>|
                named_by(traversal(self@), names) && text@ == #[trigger] text_of(
                    traversal(self@),
                    names,
                ),
    {
        let lines = self.traversal();
        render_lines(&lines)
    }
}

} // verus!
