use autoseg::graphemes::combine_identical;
use autoseg::graphemes::convert_graphemes;
use autoseg::graphemes::convert_graphemes_within;
use autoseg::graphemes::obstruent_voice;
use autoseg::graphemes::orthographic_combinations;
use autoseg::graphemes::simple_grapheme;
use autoseg::graphemes::simplify_geminates;
use autoseg::rewriting::rewrite;
use autoseg::rewriting::rules_of;

fn some(text: &str) -> Option<String> {
    Some(text.to_string())
}

fn list(items: &[&str]) -> Vec<String> {
    items.iter().map(|s| s.to_string()).collect()
}

#[test]
fn rules_are_read_from_their_notation() {
    let rules = rules_of("ab>X c>yz", None);
    assert_eq!(rules.len(), 2);
    assert_eq!(rules[0].pattern, vec!['a', 'b']);
    assert_eq!(rules[0].replacement, "X");
    assert_eq!(rules[0].ahead, None);
    assert_eq!(rules[1].pattern, vec!['c']);
    assert_eq!(rules[1].replacement, "yz");
    let ahead = rules_of("a>b", Some("xy"));
    assert_eq!(ahead[0].ahead, Some(vec!['x', 'y']));
    assert!(rules_of("", None).is_empty());
    // what does not read as a rule ends the list
    assert_eq!(rules_of("a>b cd e>f", None).len(), 1);
}

#[test]
fn rewrite_takes_the_first_rule_that_applies() {
    let rules = rules_of("ab>1 a>2 abc>3", None);
    assert_eq!(rewrite(&rules, true, "abc"), some("1c"));
    assert_eq!(rewrite(&rules, true, "aab"), some("21"));
    assert_eq!(rewrite(&rules, true, "xyz"), some("xyz"));
    assert_eq!(rewrite(&rules, false, "aab"), some("21"));
    assert_eq!(rewrite(&rules, false, "abc"), None);
    assert_eq!(rewrite(&rules, true, ""), None);
    assert_eq!(rewrite(&rules, false, ""), None);
    let ahead = rules_of("a>1", Some("xy"));
    assert_eq!(rewrite(&ahead, true, "axaya"), some("1x1ya"));
    assert_eq!(rewrite(&ahead, true, "aa"), some("aa"));
}

#[test]
fn simple_grapheme_writes_single_letters() {
    assert_eq!(simple_grapheme("abdta"), some("abdta"));
    assert_eq!(simple_grapheme("szia"), some("sia"));
    assert_eq!(simple_grapheme("csak"), some("čak"));
    assert_eq!(simple_grapheme("sok"), some("šok"));
    assert_eq!(simple_grapheme("hosszu"), some("hoSu"));
    assert_eq!(simple_grapheme("anna"), some("aNa"));
    assert_eq!(simple_grapheme("meggy"), some("meĎ"));
    assert_eq!(simple_grapheme("zsák"), some("žák"));
    assert_eq!(simple_grapheme("lly ly ll"), some("J j L"));
    assert_eq!(simple_grapheme("?"), some("?"));
    assert_eq!(simple_grapheme(""), None);
}

#[test]
fn orthographic_combinations_merge() {
    assert_eq!(orthographic_combinations("adja"), some("aĎa"));
    assert_eq!(orthographic_combinations("atša"), some("aČa"));
    assert_eq!(orthographic_combinations("alJa"), some("aJa"));
    assert_eq!(orthographic_combinations("ńj"), some("Ń"));
    assert_eq!(orthographic_combinations("ja"), some("ja"));
    assert_eq!(orthographic_combinations(""), None);
}

#[test]
fn obstruent_voice_looks_one_letter_ahead() {
    assert_eq!(obstruent_voice("abta"), some("apta"));
    assert_eq!(obstruent_voice("abdta"), some("abtta"));
    assert_eq!(obstruent_voice("abtta"), some("aptta"));
    assert_eq!(obstruent_voice("aptta"), some("aptta"));
    assert_eq!(obstruent_voice("Čb"), some("džb"));
    assert_eq!(obstruent_voice("kd"), some("gd"));
    // v takes voice away from nothing, and h takes it away
    assert_eq!(obstruent_voice("kv"), some("kv"));
    assert_eq!(obstruent_voice("bh"), some("ph"));
    assert_eq!(obstruent_voice("b"), some("b"));
    assert_eq!(obstruent_voice(""), None);
}

#[test]
fn combine_identical_merges_or_fails() {
    assert_eq!(combine_identical("aptta"), some("apTa"));
    assert_eq!(combine_identical("bB"), some("B"));
    assert_eq!(combine_identical("Bb"), some("B"));
    assert_eq!(combine_identical("BB"), some("BB"));
    assert_eq!(combine_identical("ščša"), some("ščša"));
    // no rule names the geminate L, nor any letter that is not of the spelling
    assert_eq!(combine_identical("aLa"), None);
    assert_eq!(combine_identical("a b"), None);
    assert_eq!(combine_identical("zz"), some("zz"));
    assert_eq!(combine_identical(""), None);
}

#[test]
fn simplify_geminates_next_to_consonants() {
    assert_eq!(simplify_geminates("apTa", false), Some(list(&["a", "p", "t", "a"])));
    assert_eq!(simplify_geminates("aBa", false), Some(list(&["a", "B", "a"])));
    assert_eq!(simplify_geminates("aBka", false), Some(list(&["a", "b", "k", "a"])));
    assert_eq!(simplify_geminates("akBa", false), Some(list(&["a", "k", "b", "a"])));
    assert_eq!(simplify_geminates("BB", false), Some(list(&["b", "b"])));
    assert_eq!(simplify_geminates("Ba", false), Some(list(&["B", "a"])));
    assert_eq!(simplify_geminates("Ba", true), Some(list(&["b", "a"])));
    assert_eq!(simplify_geminates("Ša", true), Some(list(&["š", "a"])));
    assert_eq!(simplify_geminates("aZ", false), Some(list(&["a", "Z"])));
    assert_eq!(simplify_geminates("A", false), None);
    assert_eq!(simplify_geminates("a?", false), None);
    assert_eq!(simplify_geminates("", false), None);
}

#[test]
fn convert_graphemes_runs_the_stages() {
    assert_eq!(convert_graphemes("abdta"), Ok(list(&["a", "p", "t", "a"])));
    assert_eq!(convert_graphemes("szia"), Ok(list(&["s", "i", "a"])));
    assert_eq!(convert_graphemes("anna"), Ok(list(&["a", "N", "a"])));
    assert_eq!(convert_graphemes("adja"), Ok(list(&["a", "Ď", "a"])));
    assert_eq!(convert_graphemes("a"), Ok(list(&["a"])));
    assert_eq!(convert_graphemes(""), Err("simple_grapheme: the text is empty".to_string()));
}

#[test]
fn convert_graphemes_within_rounds() {
    // a b d t a rests after two rounds: a b t t a, a p t t a
    assert_eq!(convert_graphemes_within("abdta", 2), Some(Ok(list(&["a", "p", "t", "a"]))));
    assert_eq!(convert_graphemes_within("abdta", 1), None);
    assert_eq!(convert_graphemes_within("abdta", 0), None);
    assert_eq!(convert_graphemes_within("a", 0), Some(Ok(list(&["a"]))));
    assert_eq!(
        convert_graphemes_within("", 0),
        Some(Err("simple_grapheme: the text is empty".to_string()))
    );
    // no rule of merging names the geminate l, nor a blank
    assert_eq!(convert_graphemes_within("alla", 100), None);
    assert_eq!(convert_graphemes_within("a a", 100), None);
    assert_eq!(convert_graphemes_within("szia", usize::MAX), convert_graphemes("szia").ok().map(Ok));
}
