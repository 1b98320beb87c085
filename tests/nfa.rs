#![allow(non_snake_case)]
use thegrep::nfa::NFA;

#[test]
fn accept_simple_true() {
    let nfa = NFA::from("b").unwrap();
    assert_eq!(true, nfa.accepts("b"));

    let nfa = NFA::from("a").unwrap();
    assert_eq!(true, nfa.accepts("a"));

    let nfa = NFA::from("us").unwrap();
    assert_eq!(true, nfa.accepts("us"));
}

#[test]
fn best_match() {
    let nfa = NFA::from(".*unc.*").unwrap();
    assert_eq!(true, nfa.accepts("unc"));
    assert_eq!(true, nfa.accepts("hellounc"));
    assert_eq!(true, nfa.accepts("bounce"));
    assert_eq!(true, nfa.accepts("uncork"));
    assert_eq!(true, nfa.accepts("lunch"));
    assert_eq!(true, nfa.accepts("munch"));
}

#[test]
fn Nomatch_anyKleeneStar() {
    let nfa = NFA::from(".*a.*").unwrap();
    assert_eq!(false, nfa.accepts("cdc"));
    assert_eq!(false, nfa.accepts("dgf"));
    assert_eq!(false, nfa.accepts("bub"));
    assert_eq!(false, nfa.accepts("hik"));
}

#[test]
fn accept_kleenestar() {
    let nfa = NFA::from(".*ab*.*").unwrap();
    assert_eq!(true, nfa.accepts("abb"));
    assert_eq!(true, nfa.accepts("abbbbbbbbbbbb"));
    assert_eq!(true, nfa.accepts("cab"));

    let nfa = NFA::from(".*abd*").unwrap();
    assert_eq!(true, nfa.accepts("abdd"));
    assert_eq!(true, nfa.accepts("abb"));
}

#[test]
fn accepts_simple_false() {
    let nfa = NFA::from("abd").unwrap();
    assert_eq!(false, nfa.accepts("c"));
    let nfa = NFA::from(".*ab.*").unwrap();
    assert_eq!(false, nfa.accepts("hat"));
}

#[test]
fn simple_alteration_kleene() {
    let nfa = NFA::from(".*(x|y)").unwrap();
    assert_eq!(true, nfa.accepts("x"));
    assert_eq!(true, nfa.accepts("y"));
    assert_eq!(true, nfa.accepts("ax"));
    assert_eq!(true, nfa.accepts("ay"));
}

#[test]
fn accept_alteration_anychar() {
    let nfa = NFA::from("(a|b).d").unwrap();
    assert_eq!(true, nfa.accepts("bad"));
    assert_eq!(true, nfa.accepts("bud"));
    assert_eq!(false, nfa.accepts("bat"));
    assert_eq!(true, nfa.accepts("and"));
}

#[test]
fn accept_anychar() {
    let nfa = NFA::from(".....").unwrap();
    assert_eq!(true, nfa.accepts("yikes"));
    assert_eq!(true, nfa.accepts("zoned"));
    assert_eq!(false, nfa.accepts("yay"));
    assert_eq!(true, nfa.accepts("alimony"));
    assert_eq!(false, nfa.accepts("oreo"));

    let nfa = NFA::from("...*").unwrap();
    assert_eq!(true, nfa.accepts("ah"));
}

#[test]
fn accept_caten() {
    let nfa = NFA::from(".*us.*").unwrap();
    assert_eq!(true, nfa.accepts("transfuse"));
    assert_eq!(true, nfa.accepts("suspicion"));
    assert_eq!(true, nfa.accepts("use"));
    assert_eq!(false, nfa.accepts("super"));
    assert_eq!(false, nfa.accepts("happy"));
}

#[test]
fn caten_Kleenstar_alter_lvl1() {
    let nfa = NFA::from(".*(a|b)*...g.*").unwrap();
    assert_eq!(true, nfa.accepts("ring"));
    assert_eq!(true, nfa.accepts("programmer"));
    assert_eq!(true, nfa.accepts("mythology"));
    assert_eq!(true, nfa.accepts("applegate"));
    assert_eq!(false, nfa.accepts("apple"));
}

#[test]
fn nfa_gone_wild() {
    let nfa = NFA::from("(.*a.*.((aa)*b|(e|d)))|(x*h(i|o))").unwrap();
    assert_eq!(true, nfa.accepts("contemplate"));
    assert_eq!(true, nfa.accepts("convalescences"));
    assert_eq!(true, nfa.accepts("emulate"));
    assert_eq!(true, nfa.accepts("emphasize"));
    assert_eq!(false, nfa.accepts("goat"));
    assert_eq!(false, nfa.accepts("glass"));
    assert_eq!(false, nfa.accepts("easy"));
    assert_eq!(false, nfa.accepts("decimal"));
}

#[test]
fn alternation_catenation() {
    let nfa = NFA::from(".*(t|k)(a|i)(b|d).*").unwrap();
    assert_eq!(true, nfa.accepts("tide"));
    assert_eq!(true, nfa.accepts("table"));
    assert_eq!(true, nfa.accepts("kid"));
    assert_eq!(true, nfa.accepts("tab"));
    assert_eq!(false, nfa.accepts("fast"));
    assert_eq!(false, nfa.accepts("act"));
    assert_eq!(false, nfa.accepts("the"));
}

#[test]
fn alt_in_an_alt() {
    let nfa = NFA::from("(a|b)|(t|z)").unwrap();
    assert_eq!(true, nfa.accepts("bash"));
    assert_eq!(true, nfa.accepts("avocado"));
    assert_eq!(true, nfa.accepts("zebra"));
    assert_eq!(false, nfa.accepts("hello"));
    assert_eq!(false, nfa.accepts("unc"));
    assert_eq!(false, nfa.accepts("got"));
}

#[test]
fn automata() {
    let nfa = NFA::from("aut....a").unwrap();
    assert_eq!(true, nfa.accepts("automata"));
}

#[test]
fn nfa_kleeneplus() {
    let nfa = NFA::from("hel+o").unwrap();
    assert_eq!(true, nfa.accepts("helllllllllo"));
    assert_eq!(false, nfa.accepts("heo"));
}

#[test]
fn add_overload() {
    let ab = NFA::from("ab").unwrap();
    let cd = NFA::from("cd").unwrap();
    let abcd = ab + cd;
    assert_eq!(true, abcd.accepts("abcd"));
}

#[test]
fn overload_kleene() {
    let a_star = NFA::from("a*").unwrap();
    let b_star = NFA::from("b*").unwrap();
    let ab = a_star + b_star;
    assert!(ab.accepts("a"));
    assert!(ab.accepts("b"));
    assert!(ab.accepts("ab"));
    assert!(ab.accepts("aabbb"));
}

#[test]
fn gen_cat() {
    let nfa = NFA::from(".*ab.*").unwrap();
    let gen_str = nfa.gen().unwrap();
    assert!(nfa.accepts(&format!("{}", gen_str)));
}

#[test]
fn gen_alt() {
    let nfa = NFA::from(".*cab|t|kl.*").unwrap();
    let gen_str = nfa.gen().unwrap();
    assert!(nfa.accepts(&format!("{}", gen_str)));
}

#[test]
fn gen_kleenestar() {
    let nfa = NFA::from(".ha*t").unwrap();
    let gen_str = nfa.gen().unwrap();
    assert!(nfa.accepts(&format!("{}", gen_str)));
}

#[test]
fn gen_kleeneplus() {
    let nfa = NFA::from(".*ab.+").unwrap();
    let gen_str = nfa.gen().unwrap();
    assert!(nfa.accepts(&format!("{}", gen_str)));
}

#[test]
fn gen_any() {
    let nfa = NFA::from("........").unwrap();
    let gen_str = nfa.gen().unwrap();
    assert!(nfa.accepts(&format!("{}", gen_str)));
}

#[test]
fn gen_anykleene() {
    let nfa = NFA::from(".*.+").unwrap();
    let gen_str = nfa.gen().unwrap();
    assert!(nfa.accepts(&format!("{}", gen_str)));
}

#[test]
fn gen_combo() {
    let nfa = NFA::from("(.+a.*.+((aa)*b|(e|d+)))|(x+h(i*|o*))").unwrap();
    let gen_str = nfa.gen().unwrap();
    assert!(nfa.accepts(&format!("{}", gen_str)));
}

#[test]
fn literal_accepts_itself_only() {
    let nfa = NFA::from("grep").unwrap();
    assert!(nfa.accepts("grep"));
    assert!(!nfa.accepts("grap"));
    assert!(!nfa.accepts("xrep"));
    assert!(!nfa.accepts("gre"));
    assert!(!nfa.accepts(""));
}

#[test]
fn whitespace_in_pattern_is_literal() {
    let nfa = NFA::from("\ta").unwrap();
    assert!(nfa.accepts("\ta"));
    assert!(!nfa.accepts("a"));
    let nfa = NFA::from("a\n").unwrap();
    assert!(nfa.accepts("a\n"));
    assert!(!nfa.accepts("ab"));
}

#[test]
fn wildcard_count() {
    let nfa = NFA::from(".....").unwrap();
    assert!(nfa.accepts("yikes"));
    assert!(!nfa.accepts("yay"));
    assert!(!nfa.accepts(""));
    let nfa = NFA::from("..").unwrap();
    assert!(nfa.accepts("ab"));
    assert!(!nfa.accepts("a"));
}

#[test]
fn closure_laws() {
    let star = NFA::from("a*").unwrap();
    assert!(star.accepts(""));
    assert!(star.accepts("a"));
    assert!(star.accepts("aaaa"));
    let plus = NFA::from("a+").unwrap();
    assert!(plus.accepts("a"));
    assert!(plus.accepts("aaa"));
    assert!(!plus.accepts(""));
}

#[test]
fn alternation_law() {
    let nfa = NFA::from("(a|b)").unwrap();
    assert!(nfa.accepts("a"));
    assert!(nfa.accepts("b"));
    assert!(!nfa.accepts("c"));
}

#[test]
fn substring_search_idiom() {
    let nfa = NFA::from(".*unc.*").unwrap();
    assert!(nfa.accepts("bounce"));
    assert!(!nfa.accepts("bonce"));
}

#[test]
fn composition_concatenation() {
    let a = NFA::from("ab").unwrap();
    let b = NFA::from("cd").unwrap();
    let ab = a.concat(b);
    assert!(ab.accepts("abcd"));
    assert!(!ab.accepts("abc"));
    assert!(!ab.accepts("cd"));
}

#[test]
fn parse_failure_propagation() {
    assert_eq!(NFA::from("a|").err(), Some("Unexpected end of input".to_string()));
    assert_eq!(
        NFA::from("ab)").err(),
        Some("Expected end of input, found RParen".to_string())
    );
    assert!(NFA::from("a|").is_err());
    assert!(NFA::from("(a").is_err());
    assert!(NFA::from("a)").is_err());
}

#[test]
fn gen_literal_is_exact() {
    let nfa = NFA::from("abc").unwrap();
    assert_eq!(nfa.gen(), Some("abc".to_string()));
}

#[test]
fn gen_shape_of_closure() {
    let nfa = NFA::from(".ha*t").unwrap();
    for _ in 0..20 {
        let s: Vec<char> = nfa.gen().unwrap().chars().collect();
        assert!(s.len() >= 3);
        assert!(s[0].is_ascii_alphanumeric());
        assert_eq!(s[1], 'h');
        assert_eq!(s[s.len() - 1], 't');
        assert!(s[2..s.len() - 1].iter().all(|c| *c == 'a'));
    }
}

#[test]
fn gen_wildcards_are_alphanumeric() {
    let nfa = NFA::from("....").unwrap();
    let s = nfa.gen().unwrap();
    assert_eq!(s.chars().count(), 4);
    assert!(s.chars().all(|c| c.is_ascii_alphanumeric()));
}

#[test]
fn gen_round_trip_many() {
    let nfa = NFA::from("(a|b)*c(d|e+)").unwrap();
    for _ in 0..50 {
        let s = nfa.gen().unwrap();
        assert!(nfa.accepts(&s));
    }
}

#[test]
fn gen_without_random_steps_still_finishes() {
    let nfa = NFA::from("a").unwrap();
    assert_eq!(nfa.gen_bounded(0), Some("a".to_string()));
    let nfa = NFA::from("x*y").unwrap();
    assert_eq!(nfa.gen_bounded(0), Some("y".to_string()));
    let nfa = NFA::from("(ab)+").unwrap();
    assert_eq!(nfa.gen_bounded(0), Some("ab".to_string()));
}

#[test]
fn gen_of_composed_automaton() {
    let ab = NFA::from("a+").unwrap() + NFA::from("b").unwrap();
    for _ in 0..20 {
        let s = ab.gen().unwrap();
        assert!(ab.accepts(&s));
        assert!(s.ends_with('b'));
    }
}

#[test]
fn nested_closure_terminates() {
    let nfa = NFA::from("(a*)*b").unwrap();
    assert!(nfa.accepts("aaab"));
    assert!(nfa.accepts("b"));
    assert!(!nfa.accepts("aaa"));
}

#[test]
fn composition_passes_through_right_entry() {
    let r = NFA::from("ab").unwrap() + NFA::from("c*").unwrap();
    assert!(r.accepts("ab"));
    assert!(r.accepts("abccc"));
    assert!(!r.accepts("a"));
    let r = NFA::from("a").unwrap() + NFA::from("b").unwrap() + NFA::from("c").unwrap();
    assert!(r.accepts("abc"));
    assert!(!r.accepts("ab"));
}
