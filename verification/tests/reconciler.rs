use imgpipe::reconcile::{find_first_match, reconcile_plan, stem_of};

fn strings(v: &[&str]) -> Vec<String> {
    v.iter().map(|s| s.to_string()).collect()
}

#[test]
fn stem_drops_the_extension() {
    assert_eq!(stem_of("abc.jpg"), "abc");
    assert_eq!(stem_of("a.b.c"), "a.b");
    assert_eq!(stem_of("noext"), "noext");
    assert_eq!(stem_of("trailing."), "trailing");
    assert_eq!(stem_of(".config"), ".config");
    assert_eq!(stem_of(""), "");
}

#[test]
fn prefix_match_renames_to_the_original() {
    // The compressed stem is a prefix of the original stem.
    let originals = strings(&["abc123.jpg"]);
    let compressed = strings(&["abc1.jpg"]);
    let plan = reconcile_plan(&originals, &compressed);
    assert_eq!(plan.len(), 1);
    assert_eq!(plan[0].from, "abc1.jpg");
    assert_eq!(plan[0].to, "abc123.jpg");
}

#[test]
fn no_match_leaves_the_name_untouched() {
    let originals = strings(&["photo.jpg"]);
    let compressed = strings(&["deadbeef.jpg"]);
    let plan = reconcile_plan(&originals, &compressed);
    assert_eq!(plan.len(), 1);
    assert_eq!(plan[0].from, "deadbeef.jpg");
    assert_eq!(plan[0].to, "deadbeef.jpg");
}

#[test]
fn first_listed_original_wins_a_tie() {
    let originals = strings(&["abc1.jpg", "abc123.jpg"]);
    let compressed = strings(&["abc.jpg"]);
    let plan = reconcile_plan(&originals, &compressed);
    assert_eq!(plan[0].to, "abc1.jpg");
}

#[test]
fn find_first_match_scans_in_order() {
    let names = strings(&["zzz.png", "abc123.jpg", "abcde.jpg"]);
    assert_eq!(find_first_match(&names, "abc"), Some(1));
    assert_eq!(find_first_match(&names, "zzz.png"), Some(0));
    assert_eq!(find_first_match(&names, "nope"), None);
}

#[test]
fn reconciling_twice_changes_nothing_more() {
    let originals = strings(&[
        "2a59ff7edb5987fbf1af35865b52417d._RI_V_TTW_SX1920_.jpg",
        "other-picture.png",
    ]);
    let compressed = strings(&["2a59ff7edb5987fbf1af35865b52417d.jpg", "other-pic.png"]);
    let once = reconcile_plan(&originals, &compressed);
    let after_once: Vec<String> = once.iter().map(|r| r.to.clone()).collect();
    assert_eq!(
        after_once,
        strings(&[
            "2a59ff7edb5987fbf1af35865b52417d._RI_V_TTW_SX1920_.jpg",
            "other-picture.png",
        ])
    );
    let twice = reconcile_plan(&originals, &after_once);
    let after_twice: Vec<String> = twice.iter().map(|r| r.to.clone()).collect();
    assert_eq!(after_twice, after_once);
    for r in &twice {
        assert_eq!(r.from, r.to);
    }
}
