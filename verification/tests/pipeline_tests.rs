use ranked_vote::metadata::Params;
use ranked_vote::pipeline::{
    cache_plan, contests_share_param, effective_force_flags, CachePlan,
};
use ranked_vote::report::{
    sort_contest_entries, sort_election_entries, ContestIndexEntry, ElectionIndexEntry,
};

fn entry(office_name: &str) -> ContestIndexEntry {
    ContestIndexEntry {
        office: String::from("o"),
        office_name: String::from(office_name),
        name: String::from("n"),
        winner: String::from("w"),
        num_candidates: 2,
        num_rounds: 1,
        condorcet_winner: None,
        has_non_condorcet_winner: false,
    }
}

fn election(date: &str, path: &str) -> ElectionIndexEntry {
    ElectionIndexEntry {
        path: String::from(path),
        jurisdiction_name: String::from("j"),
        election_name: String::from("e"),
        date: String::from(date),
        contests: Vec::new(),
    }
}

#[test]
fn test_cache_plan() {
    assert_eq!(CachePlan::ReuseReport, cache_plan(true, true, false, false));
    assert_eq!(CachePlan::ReusePreprocessed, cache_plan(false, true, false, false));
    assert_eq!(CachePlan::ReusePreprocessed, cache_plan(true, true, false, true));
    assert_eq!(CachePlan::Preprocess, cache_plan(true, true, true, false));
    assert_eq!(CachePlan::Preprocess, cache_plan(true, false, false, false));
    assert_eq!(CachePlan::Preprocess, cache_plan(false, false, false, false));
}

#[test]
fn test_effective_force_flags() {
    // Default: regenerate everything.
    assert_eq!((true, true), effective_force_flags(false, false, false, false));
    // Caching both stages forces neither.
    assert_eq!((false, false), effective_force_flags(true, true, false, false));
    // Regenerating reports also regenerates preprocessing.
    assert_eq!((true, true), effective_force_flags(true, false, false, false));
    // The deprecated force flags override the cache flags.
    assert_eq!((true, true), effective_force_flags(true, true, false, true));
    assert_eq!((true, false), effective_force_flags(true, true, true, false));
}

#[test]
fn test_contests_share_param() {
    let mut a = Params::new();
    a.insert(String::from("cvr"), String::from("export"));
    let mut b = Params::new();
    b.insert(String::from("cvr"), String::from("export"));
    let mut c = Params::new();
    c.insert(String::from("cvr"), String::from("other"));
    let same = vec![
        (String::from("x"), a),
        (String::from("y"), b),
    ];
    assert!(contests_share_param(&same, &String::from("cvr")));
    let mut a2 = Params::new();
    a2.insert(String::from("cvr"), String::from("export"));
    let differ = vec![
        (String::from("x"), a2),
        (String::from("y"), c),
    ];
    assert!(!contests_share_param(&differ, &String::from("cvr")));
}

#[test]
fn test_sort_contest_entries() {
    let sorted = sort_contest_entries(vec![entry("Mayor"), entry("Auditor"), entry("Council")]);
    let names: Vec<&str> = sorted.iter().map(|e| e.office_name.as_str()).collect();
    assert_eq!(vec!["Auditor", "Council", "Mayor"], names);
}

#[test]
fn test_sort_election_entries_date_desc_then_path_desc() {
    let sorted = sort_election_entries(vec![
        election("2020-11-03", "us/a"),
        election("2021-11-02", "us/a"),
        election("2021-11-02", "us/b"),
    ]);
    let keys: Vec<(&str, &str)> = sorted
        .iter()
        .map(|e| (e.date.as_str(), e.path.as_str()))
        .collect();
    assert_eq!(
        vec![
            ("2021-11-02", "us/b"),
            ("2021-11-02", "us/a"),
            ("2020-11-03", "us/a"),
        ],
        keys
    );
}
