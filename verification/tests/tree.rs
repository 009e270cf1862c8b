use poker_arena::tree::{
    explorer_json, postdraw_template, preflop_template, stats, true_tree_leaves, Lens, WAGER_CAP,
};

#[test]
fn preflop_template_matches_hand_derivation() {
    let template = preflop_template();
    assert_eq!(template.outcomes.len(), 14);
    assert_eq!(template.folds(), 7);
    assert_eq!(template.continuing(), 7);
    assert_eq!(template.prefixes.len(), 8);
    assert_eq!(template.first_actor, 0);
    let max_wagers = template.outcomes.iter().map(|o| o.wagers).max().unwrap();
    assert_eq!(max_wagers, WAGER_CAP);
    assert!(template.outcomes.iter().any(|o| o.seq == "ck"));
    assert!(template.outcomes.iter().any(|o| o.seq == "f"));
}

#[test]
fn postdraw_template_matches_hand_derivation() {
    let template = postdraw_template();
    assert_eq!(template.outcomes.len(), 17);
    assert_eq!(template.folds(), 8);
    assert_eq!(template.continuing(), 9);
    assert_eq!(template.prefixes.len(), 10);
    assert_eq!(template.first_actor, 1);
    assert!(template.outcomes.iter().any(|o| o.seq == "kk"));
}

#[test]
fn true_tree_totals_follow_the_dp() {
    let pre = preflop_template();
    let post = postdraw_template();
    let mut lines = 1u64;
    let mut expected = 0u64;
    for street in 0..4u32 {
        let (folds, continuing) = if street == 0 {
            (pre.folds() as u64, pre.continuing() as u64)
        } else {
            (post.folds() as u64, post.continuing() as u64)
        };
        expected += lines * folds;
        let live = lines * continuing;
        if street < 3 {
            lines = live * 36;
        } else {
            expected += live;
        }
    }
    assert_eq!(true_tree_leaves(), expected);
    let closed = 7 + 7 * 36 * 8 + 7 * 36 * 9 * 36 * 8 + 7 * 36 * 9 * 36 * 9 * 36 * 17u64;
    assert_eq!(true_tree_leaves(), closed);
}

#[test]
fn lens_stats_shrink_monotonically() {
    let sizes: Vec<u64> = Lens::all()
        .into_iter()
        .map(|lens| stats(lens, 50).total_decision_points)
        .collect();
    for pair in sizes.windows(2) {
        assert!(
            pair[1] < pair[0],
            "each lens must be strictly smaller: {sizes:?}"
        );
    }
    let short = stats(Lens::ShortMemory, 50);
    assert!(
        short.infosets < 5_000_000,
        "short-memory infosets: {}",
        short.infosets
    );
}

#[test]
fn explorer_json_is_valid_json() {
    let doc = explorer_json(50);
    let parsed: serde_json::Value = serde_json::from_str(&doc).unwrap();
    assert_eq!(parsed["lenses"].as_array().unwrap().len(), 4);
    assert_eq!(parsed["true_leaves"].as_u64().unwrap(), 450_372_391);
}

#[test]
fn true_tree_stats_have_exact_totals() {
    let s = stats(Lens::TrueTree, 1);
    assert_eq!(s.total_decision_points, 270_518_277);
    assert_eq!(s.showdown_classes, 238_085_568);
    assert_eq!(s.stages.len(), 7);
    assert_eq!(s.stages[0].name, "bet: predraw");
    assert_eq!(s.stages[0].classes_in, 1);
    assert_eq!(s.infosets, 270_518_277);
}

#[test]
fn infosets_scale_with_buckets() {
    let one = stats(Lens::ShortMemory, 1);
    let fifty = stats(Lens::ShortMemory, 50);
    assert_eq!(fifty.infosets, one.total_decision_points * 50);
}

#[test]
fn lens_labels_are_distinct() {
    let labels: Vec<&str> = Lens::all().into_iter().map(|l| l.label()).collect();
    for i in 0..labels.len() {
        for j in (i + 1)..labels.len() {
            assert_ne!(labels[i], labels[j]);
        }
    }
}

#[test]
fn explorer_json_agrees_with_the_templates_and_every_lens() {
    let b = 50;
    let v: serde_json::Value = serde_json::from_str(&explorer_json(b)).unwrap();
    assert_eq!(v["buckets"].as_u64().unwrap(), b);
    assert_eq!(v["true_leaves"].as_u64().unwrap(), true_tree_leaves());
    let prefixes: Vec<String> =
        v["preflop"]["prefixes"].as_array().unwrap().iter().map(|p| p.as_str().unwrap().to_string()).collect();
    assert_eq!(prefixes, preflop_template().prefixes);
    let post: Vec<String> =
        v["postdraw"]["prefixes"].as_array().unwrap().iter().map(|p| p.as_str().unwrap().to_string()).collect();
    assert_eq!(post, postdraw_template().prefixes);
    for (i, l) in Lens::all().iter().enumerate() {
        let s = stats(*l, b);
        let entry = &v["lenses"][i];
        assert_eq!(entry["label"].as_str().unwrap(), l.label());
        assert_eq!(entry["decisions"].as_u64().unwrap(), s.total_decision_points);
        assert_eq!(entry["infosets"].as_u64().unwrap(), s.infosets);
        assert_eq!(entry["showdown_classes"].as_u64().unwrap(), s.showdown_classes);
    }
}

#[test]
fn true_tree_lens_leaves_are_the_true_leaves() {
    let s = stats(Lens::TrueTree, 1);
    let folds: u64 = s.stages.iter().map(|st| st.fold_leaves).sum();
    assert_eq!(folds + s.showdown_classes, true_tree_leaves());
    assert_eq!(true_tree_leaves(), 450_372_391);
}
