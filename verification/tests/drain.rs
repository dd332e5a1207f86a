use ulpf::generator::drain::{Cluster, Drain, SAMPLES_PER_CLUSTER};

fn specificity(c: &Cluster) -> f64 {
    if c.template.is_empty() {
        return 0.0;
    }
    c.literal_positions() as f64 / c.template.len() as f64
}

#[test]
fn identical_lines_share_one_cluster() {
    let mut d = Drain::new();
    let line = "kernel: INBOUND TCP SRC=1.2.3.4 DPT=445";
    let a = d.process(line).unwrap();
    let b = d.process(line).unwrap();
    assert_eq!(a, b);
    assert_eq!(d.len(), 1);
    assert_eq!(d.ranked_clusters()[0].count, 2);
}

#[test]
fn varying_positions_generalise_to_a_wildcard() {
    let mut d = Drain::new();
    d.process("kernel: INBOUND TCP SRC=1.2.3.4 DPT=445");
    d.process("kernel: INBOUND TCP SRC=5.6.7.8 DPT=445");
    let template = &d.ranked_clusters()[0].template;
    assert_eq!(template[3], "<*>", "the source address varies");
    assert_eq!(template[4], "DPT=445", "the port does not");
}

#[test]
fn different_token_counts_never_share_a_cluster() {
    let mut d = Drain::new();
    d.process("a b c").unwrap();
    d.process("a b c d").unwrap();
    assert_eq!(d.len(), 2);
}

#[test]
fn the_cluster_cap_is_enforced() {
    let mut d = Drain::with_capacity(3);
    for i in 0..50 {
        d.process(&"x ".repeat(i + 1));
    }
    assert_eq!(d.len(), 3, "must not exceed the cap");
    assert!(d.overflow() > 0, "dropped lines must be counted, not hidden");
}

#[test]
fn ranking_is_stable_for_equal_counts() {
    let mut d = Drain::new();
    d.process("a b c");
    d.process("d e f");
    let first = d.ranked_clusters();
    let second = d.ranked_clusters();
    let ids: Vec<&str> = first.iter().map(|c| c.id.as_str()).collect();
    let again: Vec<&str> = second.iter().map(|c| c.id.as_str()).collect();
    assert_eq!(ids, again);
}

#[test]
fn samples_are_bounded() {
    let mut d = Drain::new();
    for _ in 0..100 {
        d.process("kernel: INBOUND TCP SRC=1.2.3.4 DPT=445");
    }
    let cluster = &d.ranked_clusters()[0];
    assert_eq!(cluster.count, 100);
    assert_eq!(cluster.samples.len(), SAMPLES_PER_CLUSTER);
}

#[test]
fn blank_input_creates_nothing() {
    let mut d = Drain::new();
    assert!(d.process("   ").is_none());
    assert!(d.is_empty());
}

#[test]
fn identical_lines_produce_full_specificity() {
    let mut d = Drain::new();
    d.process("kernel: INBOUND TCP SRC=1.2.3.4 DPT=445");
    d.process("kernel: INBOUND TCP SRC=1.2.3.4 DPT=445");
    assert_eq!(specificity(&d.ranked_clusters()[0]), 1.0);
}

#[test]
fn one_varying_position_out_of_five_gives_specificity_four_fifths() {
    let mut d = Drain::new();
    d.process("kernel: INBOUND TCP SRC=1.2.3.4 DPT=445");
    d.process("kernel: INBOUND TCP SRC=5.6.7.8 DPT=445");
    assert_eq!(specificity(&d.ranked_clusters()[0]), 0.8);
}

#[test]
fn a_loosely_matched_cluster_reports_lower_specificity_than_a_tight_one() {
    let mut tight = Drain::new();
    tight.process("a b c d");
    tight.process("a b c x");
    let mut loose = Drain::new();
    loose.process("a b c d");
    loose.process("a x y d");
    assert!(specificity(&tight.ranked_clusters()[0]) > specificity(&loose.ranked_clusters()[0]));
}

#[test]
fn ids_are_numbered_in_order_of_creation() {
    let mut d = Drain::new();
    assert_eq!(d.process("a b c").as_deref(), Some("C0001"));
    assert_eq!(d.process("a b c d").as_deref(), Some("C0002"));
    assert_eq!(d.process("a b c").as_deref(), Some("C0001"));
}

#[test]
fn pipes_commas_and_semicolons_separate_tokens() {
    let mut d = Drain::new();
    d.process("a|b,c;d").unwrap();
    assert_eq!(d.ranked_clusters()[0].template, vec!["a", "b", "c", "d"]);
}

#[test]
fn too_little_agreement_starts_a_new_cluster() {
    let mut d = Drain::new();
    d.process("a b c d e").unwrap();
    // One position of five agrees: below the 40% threshold.
    d.process("a x y z w").unwrap();
    assert_eq!(d.len(), 2);
    // Two of five agree: exactly 40%, so it joins.
    d.process("a b y z w").unwrap();
    assert_eq!(d.len(), 2);
}

#[test]
fn the_most_frequent_template_ranks_first() {
    let mut d = Drain::new();
    d.process("a b c");
    d.process("x y z w");
    d.process("x y z w");
    let ranked = d.ranked_clusters();
    assert_eq!(ranked[0].id, "C0002");
    assert_eq!(ranked[1].id, "C0001");
}
