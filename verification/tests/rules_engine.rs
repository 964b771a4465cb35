use orpa::approval::{Level, Rule, RuleSet};
use orpa::cnf::{Conjunction, Disjunction, CNF};
use orpa::reqs::{Requirements, Scrutiny};
use orpa::triage::{mr_bucket, MrBucket, WEEK};

#[test]
fn triage_sorts_requests_onto_lists() {
    let now: i64 = 1_700_000_000;
    // the user's own requests go by age and the shortlist cap
    assert_eq!(mr_bucket(true, now, now - WEEK, 0, 0, 0, false, false, false, false), MrBucket::OwnRecent);
    assert_eq!(mr_bucket(true, now, now - 14 * WEEK, 0, 0, 0, false, false, false, false), MrBucket::OwnOld);
    assert_eq!(mr_bucket(true, now, now - WEEK, 10, 0, 0, false, false, false, false), MrBucket::OwnOld);
    // fully reviewed requests are not shown
    assert_eq!(mr_bucket(false, now, now - WEEK, 0, 0, 0, true, false, false, false), MrBucket::Quiet);
    // assignment, the watchlist or partial review make one interesting
    assert_eq!(mr_bucket(false, now, now - WEEK, 0, 0, 3, true, false, false, false), MrBucket::Interesting);
    assert_eq!(mr_bucket(false, now, now - WEEK, 0, 0, 3, false, true, false, false), MrBucket::Interesting);
    assert_eq!(mr_bucket(false, now, now - WEEK, 0, 0, 3, false, false, true, false), MrBucket::Interesting);
    // otherwise age, draft mark and the cap decide
    assert_eq!(mr_bucket(false, now, now - 6 * WEEK, 0, 0, 3, false, false, false, false), MrBucket::Old);
    assert_eq!(mr_bucket(false, now, now - WEEK, 0, 10, 3, false, false, false, false), MrBucket::Old);
    assert_eq!(mr_bucket(false, now, now - WEEK, 0, 0, 3, false, false, false, true), MrBucket::Draft);
    assert_eq!(mr_bucket(false, now, now - WEEK, 0, 0, 3, false, false, false, false), MrBucket::Recent);
}

#[test]
fn scrutiny_parses_bang_runs() {
    assert_eq!(Scrutiny::parse("!!!"), Some(Scrutiny(3)));
    assert_eq!(Scrutiny::parse(""), Some(Scrutiny(0)));
    assert_eq!(Scrutiny::parse("!?"), None);
    assert_eq!(Scrutiny(2).render(), "!!");
}

#[test]
fn level_parses_bang_runs() {
    assert_eq!(Level::parse("!"), Some(Level(0)));
    assert_eq!(Level::parse("!!!"), Some(Level(2)));
    assert_eq!(Level::parse("!x"), None);
    assert_eq!(Level(1).render(), "!!");
}

#[test]
fn requirements_are_discharged_by_approvals() {
    let mut reqs = Requirements::new();
    reqs.add(Scrutiny(1), 2, vec![String::from("al"), String::from("jo"), String::from("pat")]);
    reqs.add(Scrutiny(3), 1, vec![String::from("al")]);
    assert!(!reqs.is_satisfied());

    // al approves with scrutiny 2: enough for the first, not for the second
    reqs.approve(String::from("al"), Scrutiny(2));
    reqs.normalize();
    assert_eq!(reqs.0.len(), 2);
    assert_eq!(reqs.0[0].1, 1);

    reqs.approve(String::from("jo"), Scrutiny(1));
    reqs.approve(String::from("al"), Scrutiny(3));
    reqs.normalize();
    assert!(reqs.is_satisfied());
}

#[test]
fn approving_twice_changes_nothing_more() {
    let mut reqs = Requirements::new();
    reqs.add(Scrutiny(0), 1, vec![String::from("al"), String::from("jo")]);
    reqs.approve(String::from("al"), Scrutiny(0));
    // al is no longer listed, so a second approval makes no difference
    reqs.approve(String::from("al"), Scrutiny(0));
    assert_eq!(reqs.0[0].1, 0);
    assert_eq!(reqs.0[0].2.len(), 1);
    reqs.normalize();
    assert!(reqs.is_satisfied());
}

fn disj(entries: &[(&str, usize)]) -> Disjunction {
    Disjunction(entries.iter().map(|(n, l)| (String::from(*n), *l)).collect())
}

#[test]
fn discharge_drops_satisfied_disjunctions() {
    let mut cnf: CNF = Conjunction(vec![
        disj(&[("al", 1), ("jo", 2)]),
        disj(&[("pat", 1)]),
    ]);
    // al approves at level 1: the first disjunction is discharged
    cnf.discharge("al", 1);
    assert_eq!(cnf.0.len(), 1);
    assert_eq!(cnf.0[0].0[0].0, "pat");
    // an approval below the asked level discharges nothing
    cnf.discharge("pat", 0);
    assert_eq!(cnf.0.len(), 1);
    cnf.discharge("pat", 1);
    assert!(cnf.0.is_empty());
}

#[test]
fn rules_are_read_from_lines() {
    let text = "src/*.rs !! 2 al,jo,pat # owners\n\n# comment only\nbad line\ndocs/* ! 1 sam\n";
    let rules = RuleSet::from_lines(text);
    assert_eq!(rules.0.len(), 2);
    assert_eq!(rules.0[0].pat, "src/*.rs");
    assert_eq!(rules.0[0].lvl, Level(1));
    assert_eq!(rules.0[0].n, 2);
    assert_eq!(rules.0[0].pop.len(), 3);
    assert_eq!(rules.0[1].pat, "docs/*");
    assert_eq!(rules.0[1].n, 1);
}

#[test]
fn rule_parse_rejects_malformed_lines() {
    assert!(Rule::parse("too few fields").is_none());
    assert!(Rule::parse("pat notbangs 1 al").is_none());
    assert!(Rule::parse("pat ! x al").is_none());
    assert!(Rule::parse("[bad ! 1 al").is_none());
    assert!(Rule::parse("ok/* ! 1 al,al,jo").is_some());
}

#[test]
fn rule_population_is_deduplicated() {
    let rule = Rule::parse("ok/* ! 1 al,al,jo").unwrap();
    assert_eq!(rule.pop.len(), 2);
}

#[test]
fn matching_selects_rules_by_glob() {
    let text = "src/*.rs ! 1 al\ndocs/* ! 1 jo\n";
    let rules = RuleSet::from_lines(text);
    let hit = rules.matching("src/lib.rs");
    assert_eq!(hit.0.len(), 1);
    assert_eq!(hit.0[0].pop[0], "al");
    let miss = rules.matching("README.md");
    assert!(miss.0.is_empty());
}

#[test]
fn approvals_wear_rules_down() {
    let text = "src/* !! 2 al,jo\n";
    let mut rules = RuleSet::from_lines(text).matching("src/x.rs");
    assert_eq!(rules.0.len(), 1);
    // an approval below the rule's level changes nothing
    rules.approve("al", Level(0));
    assert_eq!(rules.0[0].n, 2);
    rules.approve("al", Level(1));
    assert_eq!(rules.0[0].n, 1);
    rules.approve("jo", Level(3));
    assert!(rules.0.is_empty());
}
