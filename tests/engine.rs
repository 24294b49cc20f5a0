use evolve::{distance, sanitize, ConfigError, Individual, RunConfig, Simulation};

fn s(x: &str) -> String {
    x.to_string()
}

fn ind(id: &str, content: &str, parent: Option<&str>) -> Individual {
    Individual { id: s(id), content: s(content), parent: parent.map(|p| s(p)) }
}

fn sim(target: &str, individuals: Vec<Individual>, clones: u32, survivors: u32, gen: u32) -> Simulation {
    Simulation {
        target: s(target),
        individuals,
        num_clones: clones,
        survivors,
        mut_count: 1,
        gen_count: gen,
    }
}

fn differing(a: &str, b: &str) -> usize {
    a.chars().zip(b.chars()).filter(|(x, y)| x != y).count()
}

#[test]
fn distance_counts_mismatched_positions() {
    assert_eq!(distance(&s("cat"), &s("cat")), Some(0));
    assert_eq!(distance(&s("cat"), &s("cot")), Some(1));
    assert_eq!(distance(&s("abcd"), &s("dcba")), Some(4));
    assert_eq!(distance(&s("xxx"), &s("cat")), Some(3));
    assert_eq!(distance(&s(""), &s("")), Some(0));
}

#[test]
fn distance_is_symmetric() {
    assert_eq!(distance(&s("karolin"), &s("kathrin")), Some(3));
    assert_eq!(distance(&s("kathrin"), &s("karolin")), Some(3));
}

#[test]
fn distance_of_unequal_lengths_is_none() {
    assert_eq!(distance(&s("cat"), &s("cats")), None);
    assert_eq!(distance(&s("cats"), &s("cat")), None);
    assert_eq!(distance(&s(""), &s("a")), None);
}

#[test]
fn distance_counts_characters_not_bytes() {
    assert_eq!(distance(&s("a\u{b9}c"), &s("abc")), Some(1));
}

#[test]
fn new_individual_has_fresh_id_and_given_lineage() {
    let a = Individual::new(s("abc"), None);
    assert_eq!(a.content, "abc");
    assert_eq!(a.parent, None);
    assert_eq!(a.id.chars().count(), 5);
    let b = Individual::new(s("abd"), Some(a.id.clone()));
    assert_eq!(b.parent, Some(a.id.clone()));
}

#[test]
fn mutate_with_applies_edits_in_order() {
    let p = ind("p", "xxxx", None);
    let c = p.mutate_with(&vec![(0, 'a'), (2, 'b'), (0, 'c'), (9, 'z')], s("kid"));
    assert_eq!(c.content, "cxbx");
    assert_eq!(c.id, "kid");
    assert_eq!(c.parent, Some(s("p")));
    let same = p.mutate_with(&vec![], s("k2"));
    assert_eq!(same.content, "xxxx");
}

#[test]
fn mutate_keeps_length_and_bounds_changes() {
    let p = Individual::new(s("hello world"), None);
    for k in [0u8, 1, 3, 20] {
        for _ in 0..50 {
            let c = p.mutate(k);
            assert_eq!(c.content.chars().count(), 11);
            assert!(differing(&c.content, &p.content) <= k as usize);
            assert_eq!(c.parent, Some(p.id.clone()));
            assert_eq!(c.id.chars().count(), 5);
        }
    }
}

#[test]
fn mutate_with_no_edits_accepts_empty_content() {
    let p = ind("p", "", None);
    let c = p.mutate(0);
    assert_eq!(c.content, "");
    assert_eq!(c.parent, Some(s("p")));
}

#[test]
fn advance_gen_with_many_mutations_per_child() {
    let mut start = Simulation::seed(s("abcdef"), 2, 3, 2, 300);
    start.gen_count = 9;
    let next = start.advance_gen();
    assert_eq!(next.individuals.len(), 2);
    for c in &next.individuals {
        assert_eq!(c.content.chars().count(), 6);
    }
}

#[test]
fn mutate_changes_content_eventually() {
    let p = Individual::new(s("xxxxxxxx"), None);
    let mut changed = false;
    for _ in 0..100 {
        if p.mutate(3).content != p.content {
            changed = true;
        }
    }
    assert!(changed);
}

#[test]
fn is_target_and_compare() {
    let a = ind("a", "cot", None);
    assert!(!a.is_target(&s("cat")));
    assert!(ind("b", "cat", None).is_target(&s("cat")));
    assert_eq!(a.compare(&s("cat")), Some(1));
    assert_eq!(a.compare(&s("cats")), None);
}

fn config(target: &str, clones: u32, survivors: u32, mut_count: u16, inds: u32) -> RunConfig {
    RunConfig { target: s(target), clones_per_ind: clones, survivors, mut_count, ind_count: inds }
}

#[test]
fn sanitize_accepts_valid_config() {
    assert_eq!(sanitize(&config("cat", 4, 1, 1, 1)), Ok(()));
    assert_eq!(sanitize(&config("cat", 2, 4, 1, 2)), Ok(()));
}

#[test]
fn sanitize_rejects_too_many_survivors() {
    assert_eq!(sanitize(&config("cat", 2, 5, 1, 2)), Err(ConfigError::TooManySurvivors));
    assert_eq!(sanitize(&config("cat", 0, 1, 1, 3)), Err(ConfigError::TooManySurvivors));
}

#[test]
fn sanitize_rejects_short_target() {
    assert_eq!(sanitize(&config("ab", 2, 1, 1, 2)), Err(ConfigError::TargetTooShort));
    assert_eq!(sanitize(&config("", 2, 1, 1, 2)), Err(ConfigError::TargetTooShort));
}

#[test]
fn sanitize_rejects_no_mutation() {
    assert_eq!(sanitize(&config("cat", 2, 1, 0, 2)), Err(ConfigError::NoMutation));
}

#[test]
fn sanitize_rejects_no_individuals() {
    assert_eq!(sanitize(&config("cat", 2, 0, 1, 0)), Err(ConfigError::NoIndividuals));
    assert_eq!(sanitize(&config("cat", 0, 0, 1, 2)), Err(ConfigError::NoIndividuals));
}

#[test]
fn sanitize_handles_large_products() {
    assert_eq!(sanitize(&config("cat", u32::MAX, u32::MAX, 1, u32::MAX)), Ok(()));
}

#[test]
fn scenario_b_survivors_over_children_is_refused() {
    assert_eq!(sanitize(&config("dog", 2, 7, 1, 3)), Err(ConfigError::TooManySurvivors));
}

#[test]
fn seed_fills_with_placeholder() {
    let sm = Simulation::seed(s("cat"), 3, 4, 1, 1);
    assert_eq!(sm.individuals.len(), 3);
    for i in &sm.individuals {
        assert_eq!(i.content, "xxx");
        assert_eq!(i.parent, None);
    }
    assert_eq!(sm.gen_count, 0);
    assert_eq!(sm.num_clones, 4);
}

fn four_children() -> Vec<Individual> {
    vec![
        ind("c0", "xxx", Some("p1")),
        ind("c1", "cxx", Some("p1")),
        ind("c2", "cax", Some("p2")),
        ind("c3", "xxt", Some("p2")),
    ]
}

fn ids(v: &[Individual]) -> Vec<String> {
    v.iter().map(|i| i.id.clone()).collect()
}

#[test]
fn select_ranks_stably_and_keeps_lineages_early() {
    let parents = vec![ind("p1", "xxx", None), ind("p2", "xxx", None)];
    let r = sim("cat", parents, 2, 1, 0).select(four_children());
    assert_eq!(ids(&r.individuals), vec!["c2", "c1"]);
    assert_eq!(r.gen_count, 1);
}

#[test]
fn select_after_early_generations_keeps_core_only() {
    let r = sim("cat", vec![], 2, 1, 5).select(four_children());
    assert_eq!(ids(&r.individuals), vec!["c2"]);
    let r = sim("cat", vec![], 2, 3, 7).select(four_children());
    assert_eq!(ids(&r.individuals), vec!["c2", "c1", "c3"]);
}

#[test]
fn select_no_extras_when_all_lineages_in_core() {
    let r = sim("cat", vec![], 2, 2, 0).select(four_children());
    assert_eq!(ids(&r.individuals), vec!["c2", "c1"]);
}

#[test]
fn select_takes_all_when_survivors_exceed_children() {
    let r = sim("cat", vec![], 2, 10, 6).select(four_children());
    assert_eq!(ids(&r.individuals), vec!["c2", "c1", "c3", "c0"]);
}

#[test]
fn select_with_no_survivors_keeps_one_per_lineage_early() {
    let r = sim("cat", vec![], 2, 0, 0).select(four_children());
    assert_eq!(ids(&r.individuals), vec!["c2", "c1"]);
    let r = sim("cat", vec![], 2, 0, 5).select(four_children());
    assert!(r.individuals.is_empty());
}

#[test]
fn scenario_c_generation_zero_with_two_seeds() {
    let start = Simulation::seed(s("cat"), 2, 2, 1, 1);
    let seeds = ids(&start.individuals);
    let next = start.advance_gen();
    assert_eq!(next.gen_count, 1);
    assert!(next.individuals.len() >= 1 && next.individuals.len() <= 2);
    let best = next.individuals[0].compare(&s("cat")).unwrap();
    for c in &next.individuals {
        assert!(seeds.contains(c.parent.as_ref().unwrap()));
        assert_eq!(c.content.chars().count(), 3);
        assert!(c.compare(&s("cat")).unwrap() >= best);
    }
    if next.individuals.len() == 2 && seeds[0] != seeds[1] {
        assert_ne!(next.individuals[0].parent, next.individuals[1].parent);
    }
}

#[test]
fn advance_gen_size_after_early_generations() {
    let mut start = Simulation::seed(s("dogs"), 3, 2, 4, 2);
    start.gen_count = 5;
    let next = start.advance_gen();
    assert_eq!(next.individuals.len(), 4);
    assert_eq!(next.gen_count, 6);
    let mut start = Simulation::seed(s("dogs"), 1, 2, 9, 2);
    start.gen_count = 8;
    assert_eq!(start.advance_gen().individuals.len(), 2);
}

#[test]
fn advance_with_same_draws_is_deterministic() {
    let start = sim("cat", vec![ind("p1", "xxx", None), ind("p2", "xxx", None)], 2, 1, 0);
    let edits = vec![vec![(0, 'c')], vec![(1, 'a'), (0, 'c')], vec![(2, 't')], vec![(1, 'q')]];
    let names = vec![s("a"), s("b"), s("c"), s("d")];
    let one = start.advance_with(&edits, &names);
    let two = start.advance_with(&edits, &names);
    assert_eq!(one.individuals, two.individuals);
    assert_eq!(ids(&one.individuals), vec!["b", "c"]);
    assert_eq!(one.individuals[0].content, "cax");
    assert_eq!(one.individuals[1].parent, Some(s("p2")));
}

#[test]
fn has_target_finds_exact_match() {
    assert!(sim("cat", vec![ind("a", "cot", None), ind("b", "cat", None)], 1, 1, 0).has_target());
    assert!(!sim("cat", vec![ind("a", "cot", None)], 1, 1, 0).has_target());
}

#[test]
fn scenario_a_run_converges_on_cat() {
    let start = Simulation::seed(s("cat"), 1, 4, 1, 1);
    assert_eq!(start.individuals[0].content, "xxx");
    let (records, last) = start.run(1_000_000);
    assert!(!records.is_empty());
    let final_record = records.last().unwrap();
    assert_eq!(final_record.proximity, 0);
    assert_eq!(final_record.best, "cat");
    assert!(last.has_target());
    assert_eq!(last.gen_count as usize, records.len());
    assert!(differing(&records[0].best, "xxx") <= 1);
    assert!(records[0].proximity == 2 || records[0].proximity == 3);
    assert_eq!(last.individuals[0].content, "cat");
    for r in &records[..records.len() - 1] {
        assert!(r.proximity > 0);
    }
}

#[test]
fn run_respects_generation_cap() {
    let start = Simulation::seed(s("a very long target string"), 1, 1, 1, 1);
    let (records, last) = start.run(3);
    assert_eq!(records.len(), 3);
    assert_eq!(last.gen_count, 3);
    let (none, same) = Simulation::seed(s("abc"), 1, 1, 1, 1).run(0);
    assert!(none.is_empty());
    assert_eq!(same.gen_count, 0);
}
